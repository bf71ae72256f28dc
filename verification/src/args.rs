//! The command line, one option or argument at a time.

use lexopt::ValueExt;
use vstd::prelude::*;

verus! {

/// `lexopt::Parser`, which hands out the command line.
#[verifier::external_type_specification]
#[verifier::external_body]
pub struct ExParser(lexopt::Parser);

/// Where in the command line a parser stands.
pub enum Place {
    /// Between two arguments.
    Between,
    /// Among the letters of an argument like `-abc`; `begun` once one has been handed out.
    Letters { begun: bool },
    /// At the value of an argument like `--option=value`.
    Value,
    /// Past a `--`, after which there are no options.
    Ended,
}

/// What a parser has not handed out yet.
pub struct Unread {
    /// The arguments it has not come to.
    pub args: Seq<Seq<u8>>,
    /// What is left of the argument it is in the middle of.
    pub rest: Seq<u8>,
    pub place: Place,
    /// The option it handed out last, with its dashes.
    pub last: Option<Seq<char>>,
    /// `-o=value` gives the option the value without the equals sign.
    pub short_equals: bool,
}

/// What a `lexopt::Parser` holds: the rest of its source, its state, its last option and its
/// setting for short options. The name of the command, which it holds as well, is left out.
pub uninterp spec fn unread(parser: lexopt::Parser) -> Unread;

/// An option or argument on the command line.
#[derive(Debug)]
pub enum Arg {
    Short(char),
    Long(String),
    Value(Vec<u8>),
}

pub enum ArgView {
    Short(char),
    Long(Seq<char>),
    Value(Seq<u8>),
}

impl View for Arg {
    type V = ArgView;

    open spec fn view(&self) -> ArgView {
        match self {
            Arg::Short(c) => ArgView::Short(*c),
            Arg::Long(name) => ArgView::Long(name@),
            Arg::Value(value) => ArgView::Value(value@),
        }
    }
}

/// What is wrong with the command line as such.
#[derive(Debug)]
pub enum LexError {
    /// An option that takes a value came last; with the option.
    MissingValue(Option<String>),
    /// There is no such option.
    UnexpectedOption(String),
    /// There was an argument where none is taken.
    UnexpectedArgument(Vec<u8>),
    /// An option that takes no value was given one.
    UnexpectedValue(String, Vec<u8>),
    /// A value that should have been text was not.
    NonUnicodeValue(Vec<u8>),
    /// Anything else, in words.
    Other(String),
}

pub enum LexErrorView {
    MissingValue(Option<Seq<char>>),
    UnexpectedOption(Seq<char>),
    UnexpectedArgument(Seq<u8>),
    UnexpectedValue(Seq<char>, Seq<u8>),
    NonUnicodeValue(Seq<u8>),
    Other(Seq<char>),
}

impl View for LexError {
    type V = LexErrorView;

    open spec fn view(&self) -> LexErrorView {
        match self {
            LexError::MissingValue(option) => LexErrorView::MissingValue(
                match option {
                    Some(option) => Some(option@),
                    None => None,
                },
            ),
            LexError::UnexpectedOption(option) => LexErrorView::UnexpectedOption(option@),
            LexError::UnexpectedArgument(value) => LexErrorView::UnexpectedArgument(value@),
            LexError::UnexpectedValue(option, value) => LexErrorView::UnexpectedValue(
                option@,
                value@,
            ),
            LexError::NonUnicodeValue(value) => LexErrorView::NonUnicodeValue(value@),
            LexError::Other(words) => LexErrorView::Other(words@),
        }
    }
}

/// What a parser hands out next, and what it has not handed out after that.
pub uninterp spec fn lexed(from: Unread) -> (Result<Option<ArgView>, LexErrorView>, Unread);

/// Less is left in `after` than in `before`.
pub open spec fn shrinks(before: Unread, after: Unread) -> bool {
    ||| after.args.len() < before.args.len()
    ||| after.args.len() == before.args.len() && after.rest.len() < before.rest.len()
}

/// An argument that is no option.
pub open spec fn is_plain(arg: Seq<u8>) -> bool {
    !(arg.len() > 1 && arg[0] == 0x2d)
}

/// `lexopt::Parser::from_env`, which starts at the first argument of the process. Which arguments
/// there are is not stated: the environment decides.
#[verifier::external_body]
pub(crate) fn command_line() -> (parser: lexopt::Parser)
    ensures
        unread(parser).rest.len() == 0,
        unread(parser).place == Place::Between,
        unread(parser).last is None,
        unread(parser).short_equals,
{
    lexopt::Parser::from_env()
}

/// `lexopt::Parser::next`. What it hands out, and what is left, goes by what was left alone; when
/// it hands something out, less is left. It hands out an argument that is no option whole, and
/// nothing once nothing is left.
#[verifier::external_body]
pub(crate) fn next_arg(parser: &mut lexopt::Parser) -> (arg: Result<Option<Arg>, LexError>)
    ensures
        unread(*final(parser)) == lexed(unread(*old(parser))).1,
        match arg {
            Ok(Some(arg)) => lexed(unread(*old(parser))).0 == Ok::<_, LexErrorView>(Some(arg@)),
            Ok(None) => lexed(unread(*old(parser))).0 == Ok::<Option<ArgView>, LexErrorView>(None),
            Err(e) => lexed(unread(*old(parser))).0 == Err::<Option<ArgView>, _>(e@),
        },
        arg matches Ok(Some(_)) ==> shrinks(unread(*old(parser)), unread(*final(parser))),
        unread(*old(parser)).place == Place::Between && unread(*old(parser)).args.len() == 0
            ==> arg matches Ok(None),
        unread(*old(parser)).place == Place::Between && unread(*old(parser)).args.len() > 0
            && is_plain(unread(*old(parser)).args[0]) ==> {
            &&& arg matches Ok(Some(Arg::Value(value))) && value@ == unread(*old(parser)).args[0]
            &&& unread(*final(parser)) == (Unread {
                args: unread(*old(parser)).args.skip(1),
                ..unread(*old(parser))
            })
        },
{
    match parser.next() {
        Ok(Some(lexopt::Arg::Short(c))) => Ok(Some(Arg::Short(c))),
        Ok(Some(lexopt::Arg::Long(name))) => Ok(Some(Arg::Long(name.to_owned()))),
        Ok(Some(lexopt::Arg::Value(value))) => Ok(Some(Arg::Value(value.into_encoded_bytes()))),
        Ok(None) => Ok(None),
        Err(lexopt::Error::UnexpectedValue { option, value }) => {
            Err(LexError::UnexpectedValue(option, value.into_encoded_bytes()))
        },
        Err(e) => Err(LexError::Other(e.to_string())),
    }
}

/// The value that an option gets, and what is left after that: what is joined to the option, or
/// else the next argument whole.
pub open spec fn value_taken(from: Unread) -> (Result<Seq<u8>, LexErrorView>, Unread) {
    let joined = from.place is Value || (from.place is Letters && from.rest.len() > 0);
    let after = Unread {
        rest: Seq::empty(),
        place: if from.place is Ended {
            Place::Ended
        } else {
            Place::Between
        },
        ..from
    };
    if joined {
        let equals = from.place is Letters && from.short_equals && from.rest[0] == 0x3d;
        (
            Ok(
                if equals {
                    from.rest.skip(1)
                } else {
                    from.rest
                },
            ),
            after,
        )
    } else if from.args.len() > 0 {
        (Ok(from.args[0]), Unread { args: from.args.skip(1), ..after })
    } else {
        (Err(LexErrorView::MissingValue(from.last)), after)
    }
}

/// The value of an option: its bytes, and the text that they are, if they are.
#[derive(Debug)]
pub struct OptionValue {
    pub bytes: Vec<u8>,
    pub text: Option<String>,
}

/// `lexopt::Parser::value`, and `lexopt::ValueExt::string` on what it returns: the value that is
/// joined to the option handed out last, or else the next argument; it is text if it is UTF-8.
#[verifier::external_body]
pub(crate) fn option_value(parser: &mut lexopt::Parser) -> (value: Result<OptionValue, LexError>)
    ensures
        unread(*final(parser)) == value_taken(unread(*old(parser))).1,
        match value {
            Ok(value) => {
                &&& value_taken(unread(*old(parser))).0 == Ok::<_, LexErrorView>(value.bytes@)
                &&& match value.text {
                    Some(text) => {
                        &&& vstd::utf8::valid_utf8(value.bytes@)
                        &&& text@ == vstd::utf8::decode_utf8(value.bytes@)
                    },
                    None => !vstd::utf8::valid_utf8(value.bytes@),
                }
            },
            Err(e) => value_taken(unread(*old(parser))).0 == Err::<Seq<u8>, _>(e@),
        },
{
    match parser.value() {
        Ok(value) => {
            let text = value.clone().string().ok();
            Ok(OptionValue { bytes: value.into_encoded_bytes(), text })
        },
        Err(lexopt::Error::MissingValue { option }) => Err(LexError::MissingValue(option)),
        Err(e) => Err(LexError::Other(e.to_string())),
    }
}

/// The error for an option or argument that is not known.
pub open spec fn unknown(arg: ArgView) -> LexErrorView {
    match arg {
        ArgView::Short(c) => LexErrorView::UnexpectedOption("-"@.push(c)),
        ArgView::Long(name) => LexErrorView::UnexpectedOption("--"@ + name),
        ArgView::Value(value) => LexErrorView::UnexpectedArgument(value),
    }
}

/// Turns an option or argument that is not known into an error.
pub fn unexpected(arg: Arg) -> (e: LexError)
    ensures
        e@ == unknown(arg@),
{
    match arg {
        Arg::Short(c) => {
            let mut option = "-".to_owned();
            option.push(c);
            LexError::UnexpectedOption(option)
        },
        Arg::Long(name) => {
            let mut option = "--".to_owned();
            option.append(name.as_str());
            LexError::UnexpectedOption(option)
        },
        Arg::Value(value) => LexError::UnexpectedArgument(value),
    }
}

} // verus!
