//! How devices are ranked and listed, recognized and found again, and what their times come to.

use crate::device;
use crate::device::{DeviceInfo, DeviceListingRank, Fingerprint, FingerprintView};
use crate::device::{Link, Listed, OpenFailure};
use crate::device::{KEY_A, KEY_ENTER};
use crate::edges::Nanos;
use crate::event::{InputEvent, EV_KEY};
use crate::text;
use crate::text::NumberError;
use crate::time;
use crate::wording;
use vstd::prelude::*;

verus! {

/// A device that sends key events and has the letter A is a keyboard, and so is one that has the
/// Enter key, whatever else it has and whatever it is called; no other device is.
pub proof fn keyboards_have_letters_or_enter(dev: DeviceInfo)
    ensures
        dev.events@.contains(EV_KEY) && dev.keys is Some && dev.keys->0@.contains(KEY_A)
            ==> dev.listing_rank() == DeviceListingRank::Keyboard,
        dev.events@.contains(EV_KEY) && dev.keys is Some && dev.keys->0@.contains(KEY_ENTER)
            ==> dev.listing_rank() == DeviceListingRank::Keyboard,
        dev.listing_rank() == DeviceListingRank::Keyboard ==> dev.events@.contains(EV_KEY)
            && dev.keys is Some && (dev.keys->0@.contains(KEY_A) || dev.keys->0@.contains(
            KEY_ENTER,
        )),
{
}

/// More keys, or another name, make no keyboard less of one.
pub proof fn more_keys_keep_a_keyboard(dev: DeviceInfo, more: DeviceInfo)
    requires
        dev.listing_rank() == DeviceListingRank::Keyboard,
        more.events@.contains(EV_KEY),
        more.keys is Some,
        forall|k: u16| dev.keys->0@.contains(k) ==> #[trigger] more.keys->0@.contains(k),
    ensures
        more.listing_rank() == DeviceListingRank::Keyboard,
{
}

/// A device that is no keyboard for its keys is told by its name: without key events, without keys
/// or without a name it is none; otherwise it may be one, unless its name, in whatever case, is one
/// of a device that has keys and is no keyboard.
pub proof fn other_devices_go_by_their_names(dev: DeviceInfo)
    requires
        dev.listing_rank() != DeviceListingRank::Keyboard,
    ensures
        dev.listing_rank() == DeviceListingRank::NotKeyboard <==> !dev.events@.contains(EV_KEY)
            || dev.keys is None || dev.keys->0@.len() == 0 || dev.name is None,
        dev.listing_rank() == DeviceListingRank::ProbablyNotKeyboard <==> dev.events@.contains(
            EV_KEY,
        ) && dev.keys is Some && dev.keys->0@.len() > 0 && dev.name is Some
            && device::sounds_like_no_keyboard(text::lowercased(dev.name->0@)),
{
}

/// A name says that a device is no keyboard wherever it says so, and only with these words.
pub proof fn some_names_tell_no_keyboard(front: Seq<char>, behind: Seq<char>, name: Seq<char>)
    ensures
        device::sounds_like_no_keyboard(front + "touchpad"@ + behind),
        device::sounds_like_no_keyboard(front + "trackpad"@ + behind),
        device::sounds_like_no_keyboard(front + "tablet"@ + behind),
        device::sounds_like_no_keyboard(front + "mouse"@ + behind),
        device::sounds_like_no_keyboard(front + "speaker"@ + behind),
        device::sounds_like_no_keyboard(front + "headphone"@ + behind),
        device::sounds_like_no_keyboard(front + "headset"@ + behind),
        device::sounds_like_no_keyboard(front + "power button"@ + behind),
        device::sounds_like_no_keyboard(front + "video bus"@ + behind),
        !text::occurs(name, "touchpad"@)
            && !text::occurs(name, "trackpad"@)
            && !text::occurs(name, "tablet"@)
            && !text::occurs(name, "mouse"@)
            && !text::occurs(name, "speaker"@)
            && !text::occurs(name, "headphone"@)
            && !text::occurs(name, "headset"@)
            && !text::occurs(name, "power button"@)
            && !text::occurs(name, "video bus"@) ==> !device::sounds_like_no_keyboard(name),
{
    wording::what_is_surrounded_occurs(front, "touchpad"@, behind);
    wording::what_is_surrounded_occurs(front, "trackpad"@, behind);
    wording::what_is_surrounded_occurs(front, "tablet"@, behind);
    wording::what_is_surrounded_occurs(front, "mouse"@, behind);
    wording::what_is_surrounded_occurs(front, "speaker"@, behind);
    wording::what_is_surrounded_occurs(front, "headphone"@, behind);
    wording::what_is_surrounded_occurs(front, "headset"@, behind);
    wording::what_is_surrounded_occurs(front, "power button"@, behind);
    wording::what_is_surrounded_occurs(front, "video bus"@, behind);
}

/// The rank goes by which keys there are, not by their order or how often they are told, and by the
/// name without its case.
pub proof fn ranks_go_by_keys_and_name(a: DeviceInfo, b: DeviceInfo)
    requires
        a.events@.contains(EV_KEY) == b.events@.contains(EV_KEY),
        a.keys is Some && b.keys is Some,
        forall|k: u16| #[trigger] a.keys->0@.contains(k) <==> b.keys->0@.contains(k),
        a.name is Some && b.name is Some,
        text::lowercased(a.name->0@) == text::lowercased(b.name->0@),
    ensures
        a.listing_rank() == b.listing_rank(),
{
    if a.keys->0@.len() > 0 {
        assert(a.keys->0@.contains(a.keys->0@[0]));
    }
    if b.keys->0@.len() > 0 {
        assert(b.keys->0@.contains(b.keys->0@[0]));
        assert(a.keys->0@.contains(b.keys->0@[0]));
    }
}

/// Keys only count if the device sends key events, and then they are just those it has.
pub proof fn keys_need_key_events(dev: DeviceInfo)
    ensures
        dev.supported_keys() is Some <==> dev.keys is Some && dev.events@.contains(EV_KEY),
        dev.supported_keys() is Some ==> dev.supported_keys()->0 == dev.keys->0@,
{
}

/// How far down the list devices of a rank stand.
pub open spec fn place_of(rank: DeviceListingRank) -> int {
    match rank {
        DeviceListingRank::Keyboard => 0,
        DeviceListingRank::MaybeKeyboard => 1,
        DeviceListingRank::ProbablyNotKeyboard => 2,
        DeviceListingRank::NotKeyboard => 3,
    }
}

/// The rows of a rank are those of the devices that have it, in the order of the devices.
pub proof fn rows_of_a_rank_keep_their_order(devices: Seq<Listed>, rank: DeviceListingRank)
    ensures
        device::rows_ranked(devices, rank) == devices.filter(
            |d: Listed| d.dev.listing_rank() == rank,
        ).map_values(|d: Listed| d.row()),
    decreases devices.len(),
{
    reveal(Seq::filter);
    let pred = |d: Listed| d.dev.listing_rank() == rank;
    let row = |d: Listed| d.row();
    if devices.len() > 0 {
        rows_of_a_rank_keep_their_order(devices.drop_last(), rank);
        let front = devices.drop_last().filter(pred);
        if pred(devices.last()) {
            assert(front.push(devices.last()).map_values(row) =~= front.map_values(row).push(
                devices.last().row(),
            ));
        }
    } else {
        assert(devices.filter(pred).map_values(row) =~= Seq::empty());
    }
}

/// Row `p` of a rank is that of a device of the rank, which stands behind those of the rows in
/// front.
proof fn lemma_row_of_rank(devices: Seq<Listed>, rank: DeviceListingRank, p: int) -> (i: int)
    requires
        0 <= p < device::rows_ranked(devices, rank).len(),
    ensures
        0 <= i < devices.len(),
        devices[i].dev.listing_rank() == rank,
        device::rows_ranked(devices, rank)[p] == devices[i].row(),
        device::rows_ranked(devices.take(i), rank).len() == p,
    decreases devices.len(),
{
    let front = devices.drop_last();
    let last = devices.len() - 1;
    if p < device::rows_ranked(front, rank).len() {
        let i = lemma_row_of_rank(front, rank, p);
        assert(front.take(i) =~= devices.take(i));
        assert(front[i] == devices[i]);
        i
    } else {
        assert(devices.take(last) =~= front);
        last
    }
}

/// Fewer devices have no more rows.
proof fn lemma_rows_grow(devices: Seq<Listed>, rank: DeviceListingRank, i: int, j: int)
    requires
        0 <= i <= j <= devices.len(),
    ensures
        device::rows_ranked(devices.take(i), rank).len() <= device::rows_ranked(
            devices.take(j),
            rank,
        ).len(),
    decreases j - i,
{
    if i < j {
        lemma_rows_grow(devices, rank, i, j - 1);
        assert(devices.take(j).drop_last() =~= devices.take(j - 1));
    }
}

/// Which device row `p` of the list is for, and where that row is among those of its rank.
proof fn lemma_row_of(devices: Seq<Listed>, p: int) -> (i: int)
    requires
        0 <= p < device::rows_of(devices).len(),
    ensures
        0 <= i < devices.len(),
        device::rows_of(devices)[p] == devices[i].row(),
        ({
            let rank = devices[i].dev.listing_rank();
            let a = device::rows_ranked(devices, DeviceListingRank::Keyboard).len();
            let b = device::rows_ranked(devices, DeviceListingRank::MaybeKeyboard).len();
            let c = device::rows_ranked(devices, DeviceListingRank::ProbablyNotKeyboard).len();
            let start = match rank {
                DeviceListingRank::Keyboard => 0,
                DeviceListingRank::MaybeKeyboard => a as int,
                DeviceListingRank::ProbablyNotKeyboard => (a + b) as int,
                DeviceListingRank::NotKeyboard => (a + b + c) as int,
            };
            &&& start <= p < start + device::rows_ranked(devices, rank).len()
            &&& device::rows_ranked(devices.take(i), rank).len() == p - start
        }),
{
    let a = device::rows_ranked(devices, DeviceListingRank::Keyboard).len();
    let b = device::rows_ranked(devices, DeviceListingRank::MaybeKeyboard).len();
    let c = device::rows_ranked(devices, DeviceListingRank::ProbablyNotKeyboard).len();
    if p < a {
        lemma_row_of_rank(devices, DeviceListingRank::Keyboard, p)
    } else if p < a + b {
        lemma_row_of_rank(devices, DeviceListingRank::MaybeKeyboard, p - a)
    } else if p < a + b + c {
        lemma_row_of_rank(devices, DeviceListingRank::ProbablyNotKeyboard, p - a - b)
    } else {
        lemma_row_of_rank(devices, DeviceListingRank::NotKeyboard, p - a - b - c)
    }
}

/// The likelier a device is a keyboard, the higher it is listed, and devices that are equally
/// likely keep their order.
pub proof fn likelier_keyboards_come_first(devices: Seq<Listed>, p: int, q: int) -> (shown: (
    int,
    int,
))
    requires
        0 <= p < q < device::rows_of(devices).len(),
    ensures
        0 <= shown.0 < devices.len(),
        0 <= shown.1 < devices.len(),
        device::rows_of(devices)[p] == devices[shown.0].row(),
        device::rows_of(devices)[q] == devices[shown.1].row(),
        place_of(devices[shown.0].dev.listing_rank()) <= place_of(
            devices[shown.1].dev.listing_rank(),
        ),
        devices[shown.0].dev.listing_rank() == devices[shown.1].dev.listing_rank() ==> shown.0
            < shown.1,
{
    let i = lemma_row_of(devices, p);
    let j = lemma_row_of(devices, q);
    let rank = devices[i].dev.listing_rank();
    if devices[j].dev.listing_rank() == rank && j <= i {
        lemma_rows_grow(devices, rank, j, i);
    }
    (i, j)
}

/// The row of a device tells where it is, its ids so that they can be read again, its name, and its
/// rank, for which no two ranks are described alike.
pub proof fn rows_tell_their_device(listed: Listed, a: DeviceListingRank, b: DeviceListingRank)
    ensures
        listed.row().len() == 6,
        listed.row()[0] == listed.path@,
        text::number(listed.row()[1], 16, 0xffff) == Ok::<_, NumberError>(
            listed.dev.vendor as nat,
        ),
        text::number(listed.row()[2], 16, 0xffff) == Ok::<_, NumberError>(
            listed.dev.product as nat,
        ),
        listed.row()[1].len() == 4 && listed.row()[2].len() == 4,
        listed.row()[3] == device::bus_name(listed.dev.bus),
        listed.dev.name is Some ==> listed.row()[4] == listed.dev.name->0@,
        listed.dev.name is None ==> listed.row()[4] == "<unnamed device>"@,
        listed.row()[5] == listed.dev.listing_rank().words(),
        a.words() == b.words() ==> a == b,
{
    wording::hexadecimal_is_read_as_it_is_written(listed.dev.vendor, 0xffff);
    wording::hexadecimal_is_read_as_it_is_written(listed.dev.product, 0xffff);
    reveal_strlit("not a keyboard");
    reveal_strlit("looks like a keyboard?");
    reveal_strlit("probably not a keyboard");
    reveal_strlit("keyboard");
    assert(a.words() == b.words() ==> a.words().len() == b.words().len());
    assert("not a keyboard"@.len() == 14);
    assert("looks like a keyboard?"@.len() == 22);
    assert("probably not a keyboard"@.len() == 23);
    assert("keyboard"@.len() == 8);
}

/// Two devices have the same identity if and only if they agree in their names, their serials and
/// all of their ids; what they are capable of does not matter.
pub proof fn identity_is_name_serial_and_ids(a: DeviceInfo, b: DeviceInfo)
    ensures
        a.identity() == b.identity() <==> {
            &&& device::text_view(a.name) == device::text_view(b.name)
            &&& device::text_view(a.uniq) == device::text_view(b.uniq)
            &&& a.vendor == b.vendor
            &&& a.product == b.product
            &&& a.version == b.version
            &&& a.bus == b.bus
        },
        a.name is Some ==> device::text_view(a.name) == Some(a.name->0@),
        a.name is None ==> device::text_view(a.name) is None,
{
}

/// A fingerprint is seen as it is, field by field.
pub proof fn fingerprints_are_seen_as_they_are(fingerprint: Fingerprint)
    ensures
        fingerprint@.name is Some <==> fingerprint.name is Some,
        fingerprint.name is Some ==> fingerprint@.name->0 == fingerprint.name->0@,
        fingerprint@.uniq is Some <==> fingerprint.uniq is Some,
        fingerprint.uniq is Some ==> fingerprint@.uniq->0 == fingerprint.uniq->0@,
        fingerprint@.vendor == fingerprint.vendor,
        fingerprint@.product == fingerprint.product,
        fingerprint@.version == fingerprint.version,
        fingerprint@.bus == fingerprint.bus,
{
}

/// A device is recognized by the fingerprint that was taken of it, unless it has the name that is
/// left out, which is never recognized; no device with another identity is.
pub proof fn devices_are_recognized(was: DeviceInfo, exclude: Seq<char>, is: DeviceInfo)
    ensures
        device::is_match(was.identity(), exclude, is) <==> was.identity() == is.identity() && !(
        is.name is Some && is.name->0@ == exclude),
{
}

/// A device is told by its name and its ids.
pub proof fn fingerprints_tell_name_and_ids(fingerprint: FingerprintView)
    ensures
        ({
            let name = device::called(fingerprint.name);
            let words = fingerprint.words();
            let n = name.len() as int;
            &&& fingerprint.name is Some ==> name == fingerprint.name->0
            &&& fingerprint.name is None ==> name == "<unnamed device>"@
            &&& words == name + " ["@ + text::hex4(fingerprint.vendor) + ":"@ + text::hex4(
                fingerprint.product,
            ) + "]"@
            &&& text::number(words.subrange(n + 2, n + 6), 16, 0xffff)
                == Ok::<_, NumberError>(fingerprint.vendor as nat)
            &&& text::number(words.subrange(n + 7, n + 11), 16, 0xffff)
                == Ok::<_, NumberError>(fingerprint.product as nat)
        }),
{
    reveal_strlit(" [");
    reveal_strlit(":");
    reveal_strlit("]");
    wording::hexadecimal_is_read_as_it_is_written(fingerprint.vendor, 0xffff);
    wording::hexadecimal_is_read_as_it_is_written(fingerprint.product, 0xffff);
    let n = device::called(fingerprint.name).len() as int;
    let words = fingerprint.words();
    assert(words.subrange(n + 2, n + 6) =~= text::hex4(fingerprint.vendor));
    assert(words.subrange(n + 7, n + 11) =~= text::hex4(fingerprint.product));
}

/// What is said of a device that does not open tells its path, and says how to get access if and
/// only if that was denied.
pub proof fn failures_to_open_tell_the_path(path: Seq<char>, failure: OpenFailure)
    ensures
        ("opening "@ + path).is_prefix_of(device::opening(path, failure)),
        device::opening(path, failure) == "opening "@ + path <==> failure
            != OpenFailure::PermissionDenied,
        failure == OpenFailure::PermissionDenied ==> device::opening(path, failure) == "opening "@
            + path + " (which needs root or the user being in the `input` group)"@,
{
    reveal_strlit("");
    reveal_strlit(" (which needs root or the user being in the `input` group)");
    let start = "opening "@ + path;
    assert(start + ""@ =~= start);
    assert(device::opening(path, failure).subrange(0, start.len() as int) =~= start);
}

/// The link that is taken to a device is one that leads to it, with none in front that does; if
/// there is none, none leads to it.
pub proof fn the_first_link_is_taken(links: Seq<Link>, device: Seq<u8>)
    ensures
        match device::first_to(links, device) {
            Some(path) => exists|i: int|
                0 <= i < links.len() && (#[trigger] links[i]).path@ == path && links[i].target@
                    == device && forall|j: int|
                    0 <= j < i ==> (#[trigger] links[j]).target@ != device,
            None => forall|i: int| 0 <= i < links.len() ==> (#[trigger] links[i]).target@ != device,
        },
    decreases links.len(),
{
    if links.len() > 0 && links[0].target@ != device {
        let rest = links.skip(1);
        the_first_link_is_taken(rest, device);
        match device::first_to(rest, device) {
            Some(path) => {
                let i = choose|i: int|
                    0 <= i < rest.len() && (#[trigger] rest[i]).path@ == path && rest[i].target@
                        == device && forall|j: int|
                        0 <= j < i ==> (#[trigger] rest[j]).target@ != device;
                assert(links[i + 1] == rest[i]);
                assert forall|j: int| 0 <= j < i + 1 implies (#[trigger] links[j]).target@
                    != device by {
                    if j > 0 {
                        assert(rest[j - 1] == links[j]);
                    }
                }
            },
            None => {
                assert forall|i: int| 0 <= i < links.len() implies (#[trigger] links[i]).target@
                    != device by {
                    if i > 0 {
                        assert(rest[i - 1] == links[i]);
                    }
                }
            },
        }
    } else if links.len() > 0 {
        assert(links[0].path@ == device::first_to(links, device)->0);
    }
}

/// A span in seconds and nanoseconds is as long as the span it was made from, with less than a
/// second in nanoseconds; one that is too long for that is as long as can be told.
pub proof fn timespecs_are_as_long_as_their_spans(nanos: nat)
    ensures
        ({
            let t = device::timespec_of(nanos);
            &&& 0 <= t.nanos < 1_000_000_000
            &&& t.secs >= 0
            &&& t.secs * 1_000_000_000 + t.nanos <= nanos
            &&& nanos < (i64::MAX + 1) * 1_000_000_000 ==> t.secs * 1_000_000_000 + t.nanos == nanos
            &&& nanos >= (i64::MAX + 1) * 1_000_000_000 ==> t.secs == i64::MAX && t.nanos == 0
        }),
{
}

/// Every time that the kernel stamps an event with can be told, and is told in nanoseconds up to
/// the last time that can be; what came later is never told to have come earlier.
pub proof fn stamps_tell_the_time(event: InputEvent, later: InputEvent)
    requires
        0 <= event.secs < i64::MAX && 0 <= event.micros < 1_000_000,
        0 <= later.secs < i64::MAX && 0 <= later.micros < 1_000_000,
    ensures
        device::has_stamp(event),
        device::stamped(event) == vstd::math::min(
            event.secs * 1_000_000_000 + event.micros * 1_000,
            Nanos::MAX as int,
        ),
        event.secs < later.secs || (event.secs == later.secs && event.micros <= later.micros)
            ==> device::stamped(event) <= device::stamped(later),
{
}

/// A count of nanoseconds is kept as it is up to the last time that can be told.
pub proof fn nanoseconds_are_kept(nanos: nat)
    ensures
        time::whole_nanos(nanos) == vstd::math::min(nanos as int, Nanos::MAX as int),
{
}

/// A path is told by the name behind its last slash, wherever the file is; a slash at the end, or a
/// dot behind it, makes no difference, and a name alone is told as it is.
pub proof fn paths_are_told_by_file_name(dir: Seq<char>, name: Seq<char>)
    requires
        !name.contains('/'),
        name != ""@ && name != "."@ && name != ".."@,
    ensures
        device::path_words(name) == name,
        device::path_words(dir.push('/') + name) == name,
        device::path_words((dir.push('/') + name).push('/')) == name,
        device::path_words((dir.push('/') + name).push('/') + "."@) == name,
{
    reveal_strlit("");
    reveal_strlit(".");
    let path = dir.push('/') + name;
    let parts = text::parts(dir, '/');
    let none = Seq::<char>::empty();
    wording::a_text_without_separators_is_whole(name, '/');
    wording::separators_separate(dir, name, '/');
    assert(text::parts(name, '/').last() == name);
    assert(text::parts(path, '/').last() == name);
    wording::separators_separate(path, none, '/');
    wording::separators_separate(path, "."@, '/');
    assert(path.push('/') + none =~= path.push('/'));
    wording::a_text_without_separators_is_whole(none, '/');
    assert(!"."@.contains('/'));
    wording::a_text_without_separators_is_whole("."@, '/');
    let slashed = text::parts(path.push('/'), '/');
    let dotted = text::parts(path.push('/') + "."@, '/');
    assert(none =~= ""@);
    assert(slashed.drop_last() =~= text::parts(path, '/'));
    assert(dotted.drop_last() =~= text::parts(path, '/'));
    assert(slashed.last() == ""@);
    assert(dotted.last() == "."@);
    reveal_with_fuel(device::last_step, 3);
}

/// Slashes at the end of a path, and dots behind them, make no difference to the file name that it
/// ends in, however many there are.
pub proof fn trailing_slashes_make_no_difference(path: Seq<char>)
    ensures
        device::last_step(text::parts(path.push('/'), '/')) == device::last_step(
            text::parts(path, '/'),
        ),
        device::last_step(text::parts(path.push('/') + "."@, '/')) == device::last_step(
            text::parts(path, '/'),
        ),
        match device::last_step(text::parts(path, '/')) {
            Some(name) => device::path_words(path) == if name == ".."@ {
                path
            } else {
                name
            },
            None => device::path_words(path) == path,
        },
{
    reveal_strlit("");
    reveal_strlit(".");
    let none = Seq::<char>::empty();
    assert(none =~= ""@);
    wording::separators_separate(path, none, '/');
    wording::separators_separate(path, "."@, '/');
    assert(path.push('/') + none =~= path.push('/'));
    wording::a_text_without_separators_is_whole(none, '/');
    assert(!"."@.contains('/'));
    wording::a_text_without_separators_is_whole("."@, '/');
    let slashed = text::parts(path.push('/'), '/');
    let dotted = text::parts(path.push('/') + "."@, '/');
    assert(slashed.drop_last() =~= text::parts(path, '/'));
    assert(dotted.drop_last() =~= text::parts(path, '/'));
    assert(slashed.last() == ""@);
    assert(dotted.last() == "."@);
}

/// A path that ends in no file name is told whole.
pub proof fn paths_without_file_name_are_told_whole(dir: Seq<char>)
    ensures
        device::path_words(dir.push('/') + ".."@) == dir.push('/') + ".."@,
        device::path_words(".."@) == ".."@,
        device::path_words("/"@) == "/"@,
        device::path_words(""@) == ""@,
{
    reveal_strlit("");
    reveal_strlit(".");
    reveal_strlit("..");
    reveal_strlit("/");
    let none = Seq::<char>::empty();
    assert(!".."@.contains('/'));
    wording::a_text_without_separators_is_whole(".."@, '/');
    wording::separators_separate(dir, ".."@, '/');
    assert(text::parts(dir.push('/') + ".."@, '/').last() == ".."@);
    assert(text::parts(".."@, '/').last() == ".."@);
    assert(none =~= ""@);
    wording::a_text_without_separators_is_whole(none, '/');
    wording::separators_separate(none, none, '/');
    assert(none.push('/') + none =~= "/"@);
    assert(text::parts("/"@, '/') =~= seq![none, none]);
    assert(seq![none, none].drop_last() =~= seq![none]);
    assert(seq![none].drop_last() =~= Seq::empty());
    assert(text::parts(""@, '/') =~= seq![none]);
    reveal_with_fuel(device::last_step, 4);
}

} // verus!
