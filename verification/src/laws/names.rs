//! What units and programs are called, told from their names on disk.

use vstd::prelude::*;
use vstd::utf8::encode_utf8;

use crate::appname::{
    alphabetic, base_of, entry_paths, fallback, first_name, last_part, name_in, person_name,
    uppercase,
};
use crate::cgroup::{
    all_ascii_digits, friendly, stem_name, unescaped, unit_name, unit_stem, without_instance,
};
use crate::ipc::in_directory;
use crate::path::{file_name, normal};
use crate::text::{
    after_prefix, before_suffix, ends_with, find_last, lemma_find_last, lines, parse_nat,
    starts_with, trim,
};

verus! {

// ── endings and beginnings ─────────────────────────────────────────────

proof fn lemma_ends(s: Seq<char>, p: Seq<char>)
    ensures
        before_suffix(s + p, p) == Some(s),
{
    assert((s + p).skip(s.len() as int) =~= p);
    assert((s + p).take(s.len() as int) =~= s);
}

proof fn lemma_starts(p: Seq<char>, s: Seq<char>)
    ensures
        after_prefix(p + s, p) == Some(s),
{
    assert((p + s).take(p.len() as int) =~= p);
    assert((p + s).skip(p.len() as int) =~= s);
}

/// A text that ends otherwise.
proof fn lemma_ends_otherwise(s: Seq<char>, p: Seq<char>, back: int)
    requires
        1 <= back <= s.len(),
        back <= p.len(),
        s[s.len() - back] != p[p.len() - back],
    ensures
        !ends_with(s, p),
{
    if ends_with(s, p) {
        let t = s.skip(s.len() - p.len());
        assert(t[p.len() - back] == p[p.len() - back]);
    }
}

proof fn lemma_last_at(front: Seq<char>, c: char, back: Seq<char>)
    requires
        forall|i: int| 0 <= i < back.len() ==> #[trigger] back[i] != c,
    ensures
        find_last(front + seq![c] + back, c) == front.len() + 1,
{
    let s = front + seq![c] + back;
    lemma_find_last(s, c);
    let at = find_last(s, c) as int;
    let k = front.len() as int;
    assert(s[k] == c);
    if at > k + 1 {
        assert(s[at - 1] == back[at - 1 - k - 1]);
    }
    if at < k + 1 {
        assert(s[k] != c);
    }
}

proof fn lemma_nowhere(s: Seq<char>, c: char)
    requires
        forall|i: int| 0 <= i < s.len() ==> #[trigger] s[i] != c,
    ensures
        find_last(s, c) == 0,
{
    lemma_find_last(s, c);
}

// ── units ──────────────────────────────────────────────────────────────

/// Does a text hold none of these?
pub open spec fn without(s: Seq<char>, c: char) -> bool {
    forall|i: int| 0 <= i < s.len() ==> #[trigger] s[i] != c
}

/// **A service and a scope go by their name without the ending.**
pub proof fn lemma_an_ending_is_dropped(stem: Seq<char>)
    ensures
        unit_stem(stem + ".service"@) == stem,
        unit_stem(stem + ".scope"@) == stem,
        !ends_with(stem, ".service"@) && !ends_with(stem, ".scope"@) ==> unit_stem(stem) == stem,
        !ends_with(stem + ".service"@, ".slice"@),
        !ends_with(stem + ".scope"@, ".slice"@),
{
    lemma_ends(stem, ".service"@);
    lemma_ends(stem, ".scope"@);
    reveal_strlit(".service");
    reveal_strlit(".scope");
    reveal_strlit(".slice");
    lemma_ends_otherwise(stem + ".scope"@, ".service"@, 2);
    lemma_ends_otherwise(stem + ".service"@, ".slice"@, 4);
    lemma_ends_otherwise(stem + ".scope"@, ".slice"@, 2);
}

/// **A session of a user is called that.**
pub proof fn lemma_a_session_of_a_user(uid: Seq<char>)
    ensures
        unit_name("user@"@ + uid + ".service"@) == "user session "@ + uid,
{
    let stem = "user@"@ + uid;
    lemma_an_ending_is_dropped(stem);
    lemma_starts("user@"@, uid);
}

/// **The slices that everybody has go by what is in them, others by their
/// name.**
pub proof fn lemma_slices_go_by_what_is_in_them(other: Seq<char>)
    ensures
        unit_name("app"@ + ".slice"@) == "all user apps"@,
        unit_name("system"@ + ".slice"@) == "all system services"@,
        unit_name("user"@ + ".slice"@) == "all user sessions"@,
        unit_name("background"@ + ".slice"@) == "background tasks"@,
        unit_name("session"@ + ".slice"@) == "desktop session"@,
        unit_name("machine"@ + ".slice"@) == "VMs and containers"@,
        other != "app"@ && other != "system"@ && other != "user"@ && other != "background"@ && other
            != "session"@ && other != "machine"@ ==> unit_name(other + ".slice"@) == other
            + " (group)"@,
{
    reveal_strlit("app");
    reveal_strlit("system");
    reveal_strlit("user");
    reveal_strlit("background");
    reveal_strlit("session");
    reveal_strlit("machine");
    lemma_ends("app"@, ".slice"@);
    lemma_ends("system"@, ".slice"@);
    lemma_ends("user"@, ".slice"@);
    lemma_ends("background"@, ".slice"@);
    lemma_ends("session"@, ".slice"@);
    lemma_ends("machine"@, ".slice"@);
    lemma_ends(other, ".slice"@);
    assert("system"@[0] != "app"@[0]);
    assert("user"@[0] != "app"@[0] && "user"@[0] != "system"@[0]);
    assert("background"@[0] != "app"@[0] && "background"@[0] != "system"@[0] && "background"@[0]
        != "user"@[0]);
    assert("session"@[0] != "app"@[0] && "session"@[1] != "system"@[1] && "session"@[0]
        != "user"@[0] && "session"@[0] != "background"@[0]);
    assert("machine"@[0] != "app"@[0] && "machine"@[0] != "system"@[0] && "machine"@[0]
        != "user"@[0] && "machine"@[0] != "background"@[0] && "machine"@[0] != "session"@[0]);
}

/// **The number of an instance is dropped**, and only a number is.
pub proof fn lemma_the_number_of_an_instance_is_dropped(name: Seq<char>, tail: Seq<char>)
    requires
        without(tail, '@'),
        name.len() > 0,
    ensures
        all_ascii_digits(tail) ==> without_instance(name + seq!['@'] + tail) == name,
        !all_ascii_digits(tail) ==> without_instance(name + seq!['@'] + tail) == name + seq!['@']
            + tail,
        without_instance(tail) == tail,
{
    let s = name + seq!['@'] + tail;
    lemma_last_at(name, '@', tail);
    lemma_nowhere(tail, '@');
    assert(s.skip(name.len() as int + 1) =~= tail);
    assert(s.take(name.len() as int) =~= name);
}

/// **An app goes by its name without `app-` in front and without what a last
/// dash sets off.**
pub proof fn lemma_an_app_goes_by_its_name(name: Seq<char>, tail: Seq<char>)
    requires
        without(tail, '-'),
        !starts_with(name + seq!['-'] + tail, "flatpak-"@),
        !starts_with(tail, "flatpak-"@),
    ensures
        stem_name("app-"@ + (name + seq!['-'] + tail)) == name,
        stem_name("app-"@ + tail) == tail,
{
    let s = name + seq!['-'] + tail;
    lemma_starts("app-"@, s);
    lemma_starts("app-"@, tail);
    lemma_last_at(name, '-', tail);
    lemma_nowhere(tail, '-');
    assert(s.take(name.len() as int) =~= name);
    lemma_no_flatpak(s);
    lemma_no_flatpak(tail);
}

proof fn lemma_no_flatpak(s: Seq<char>)
    requires
        !starts_with(s, "flatpak-"@),
    ensures
        !starts_with("app-"@ + s, "app-flatpak-"@),
{
    reveal_strlit("app-");
    reveal_strlit("flatpak-");
    reveal_strlit("app-flatpak-");
    assert("app-"@ + "flatpak-"@ =~= "app-flatpak-"@);
    let t = "app-"@ + s;
    if starts_with(t, "app-flatpak-"@) {
        assert(s.take(8) =~= t.take(12).skip(4));
        assert("app-flatpak-"@.skip(4) =~= "flatpak-"@);
    }
}

/// **A flatpak goes by the last part of its name**, and is called one.
pub proof fn lemma_a_flatpak_goes_by_its_last_part(
    front: Seq<char>,
    part: Seq<char>,
    tail: Seq<char>,
)
    requires
        without(part, '.'),
        without(tail, '-'),
    ensures
        stem_name("app-flatpak-"@ + (front + seq!['.'] + part + seq!['-'] + tail)) == part
            + " (flatpak)"@,
{
    let id = front + seq!['.'] + part;
    let s = id + seq!['-'] + tail;
    lemma_starts("app-flatpak-"@, s);
    lemma_last_at(id, '-', tail);
    assert(s.take(id.len() as int) =~= id);
    lemma_last_at(front, '.', part);
    assert(id.skip(front.len() as int + 1) =~= part);
}

/// **Any other unit goes by its own name**, and one without a name is the whole
/// system.
pub proof fn lemma_any_other_unit_goes_by_its_own_name(stem: Seq<char>)
    requires
        !starts_with(stem, "app-"@),
    ensures
        stem.len() > 0 ==> stem_name(stem) == stem,
        stem.len() == 0 ==> stem_name(stem) == "whole system (root cgroup)"@,
{
    reveal_strlit("app-");
    reveal_strlit("app-flatpak-");
    if starts_with(stem, "app-flatpak-"@) {
        assert(stem.take(4) =~= stem.take(12).take(4));
        assert("app-flatpak-"@.take(4) =~= "app-"@);
    }
}

/// **A path goes by its last name, the root by what it is.**
pub proof fn lemma_a_path_goes_by_its_last_name(path: Seq<char>)
    ensures
        normal(path) == normal("/sys/fs/cgroup"@) ==> friendly(path)
            == "whole system (root cgroup)"@,
        normal(path) != normal("/sys/fs/cgroup"@) && file_name(path) is Some ==> friendly(path)
            == unit_name(unescaped(encode_utf8(file_name(path)->0))),
{
}

/// **An escape stands for the byte it gives in hexadecimal**; any other byte
/// stands for itself.
pub proof fn lemma_escapes_stand_for_their_bytes(b: Seq<u8>, high: u8, low: u8)
    ensures
        ({
            let e = seq![0x5cu8, 0x78u8, high, low];
            let v = parse_nat(seq![high as char, low as char], 16, 255);
            &&& v is Some && v->0 < 256 ==> unescaped(e + b) == seq![(v->0 as u8) as char] + unescaped(b)
            &&& v is None ==> unescaped(e + b) == seq!['\\'] + unescaped(seq![0x78u8, high, low] + b)
        }),
        b.len() > 0 && b[0] != 0x5c ==> unescaped(b) == seq![b[0] as char] + unescaped(
            b.drop_first(),
        ),
        unescaped(seq![]) == Seq::<char>::empty(),
{
    let e = seq![0x5cu8, 0x78u8, high, low];
    let s = e + b;
    assert(s[0] == 0x5c && s[1] == 0x78 && s[2] == high && s[3] == low);
    assert(s.skip(4) =~= b);
    assert(s.drop_first() =~= seq![0x78u8, high, low] + b);
    assert(0x5cu8 as char == '\\');
}

// ── programs ───────────────────────────────────────────────────────────

/// **A program is called by the first `Name=` of its desktop entry** that is not
/// empty, not by that of another group.
pub proof fn lemma_a_program_is_called_by_its_entry(
    rest: Seq<Seq<char>>,
    line: Seq<char>,
    inside: bool,
)
    ensures
        trim(line) == "[Desktop Entry]"@ ==> name_in(seq![line] + rest, inside) == name_in(
            rest,
            true,
        ),
        starts_with(trim(line), "["@) && trim(line) != "[Desktop Entry]"@ ==> name_in(
            seq![line] + rest,
            inside,
        ) == name_in(rest, false),
        !starts_with(trim(line), "["@) ==> name_in(seq![line] + rest, false) == name_in(rest, false),
        !starts_with(trim(line), "["@) && starts_with(trim(line), "Name="@) && trim(
            trim(line).skip(5),
        ).len() > 0 ==> name_in(seq![line] + rest, true) == Some(trim(trim(line).skip(5))),
        !starts_with(trim(line), "["@) && (!starts_with(trim(line), "Name="@) || trim(
            trim(line).skip(5),
        ).len() == 0) ==> name_in(seq![line] + rest, true) == name_in(rest, true),
        name_in(seq![], inside) is None,
{
    let all = seq![line] + rest;
    assert(all.drop_first() =~= rest);
    assert(all[0] == line);
    reveal_strlit("Name=");
    reveal_strlit("[");
    reveal_strlit("[Desktop Entry]");
    assert("[Desktop Entry]"@.take(1) =~= "["@);
}

/// **The first entry with a name gives it.**
pub proof fn lemma_the_first_entry_with_a_name_gives_it(bodies: Seq<Option<String>>, k: int)
    requires
        0 <= k < bodies.len(),
        bodies[k] is Some,
        name_in(lines((bodies[k]->0)@), false) is Some,
        forall|j: int|
            0 <= j < k ==> (#[trigger] bodies[j]) is None || name_in(
                lines((bodies[j]->0)@),
                false,
            ) is None,
    ensures
        first_name(bodies) == name_in(lines((bodies[k]->0)@), false),
    decreases bodies.len(),
{
    if k > 0 {
        let t = bodies.drop_first();
        assert(bodies[0] is None || name_in(lines((bodies[0]->0)@), false) is None);
        assert(t[k - 1] == bodies[k]);
        assert forall|j: int| 0 <= j < k - 1 implies (#[trigger] t[j]) is None || name_in(
            lines((t[j]->0)@),
            false,
        ) is None by {
            assert(t[j] == bodies[j + 1]);
        }
        lemma_the_first_entry_with_a_name_gives_it(t, k - 1);
    }
}

/// **Entries are looked for at home before the system**, the user's own first,
/// and by the name without the mark of a flatpak.
pub proof fn lemma_where_entries_are_looked_for(base: Seq<char>, home: String)
    requires
        trim(base) == base,
        base.len() > 0,
    ensures
        entry_paths(base + " (flatpak)"@, Some(home)) == seq![
            in_directory(in_directory(home@, ".local/share/applications"@), base + ".desktop"@),
            in_directory(
                in_directory(home@, ".local/share/flatpak/exports/share/applications"@),
                base + ".desktop"@,
            ),
            in_directory("/var/lib/flatpak/exports/share/applications"@, base + ".desktop"@),
            in_directory("/usr/local/share/applications"@, base + ".desktop"@),
            in_directory("/usr/share/applications"@, base + ".desktop"@),
        ],
{
    lemma_ends(base, " (flatpak)"@);
    let l = entry_paths(base + " (flatpak)"@, Some(home));
    assert(l.len() == 5);
    assert(l =~= seq![
        in_directory(in_directory(home@, ".local/share/applications"@), base + ".desktop"@),
        in_directory(
            in_directory(home@, ".local/share/flatpak/exports/share/applications"@),
            base + ".desktop"@,
        ),
        in_directory("/var/lib/flatpak/exports/share/applications"@, base + ".desktop"@),
        in_directory("/usr/local/share/applications"@, base + ".desktop"@),
        in_directory("/usr/share/applications"@, base + ".desktop"@),
    ]);
}

/// **Without an entry, a name like a reversed domain gives its last part with a
/// capital**, and any other name stays.
pub proof fn lemma_a_reversed_domain_gives_its_last_part(
    front: Seq<char>,
    last: Seq<char>,
    letter: bool,
    first: Seq<char>,
)
    requires
        without(last, '.'),
        without(front, ' '),
        without(last, ' '),
        trim(front + seq!['.'] + last) == front + seq!['.'] + last,
        !ends_with(front + seq!['.'] + last, " (flatpak)"@),
    ensures
        ({
            let unit = front + seq!['.'] + last;
            &&& letter && encode_utf8(last).len() > 1 ==> fallback(unit, letter, first) == first
                + last.drop_first()
            &&& !letter || encode_utf8(last).len() <= 1 ==> fallback(unit, letter, first) == unit
        }),
{
    let unit = front + seq!['.'] + last;
    lemma_last_at(front, '.', last);
    assert(unit.skip(front.len() as int + 1) =~= last);
    assert(unit[front.len() as int] == '.');
    assert(unit.contains('.'));
    assert(!unit.contains(' ')) by {
        if unit.contains(' ') {
            let k = choose|k: int| 0 <= k < unit.len() && unit[k] == ' ';
            if k < front.len() {
                assert(front[k] == ' ');
            } else if k > front.len() {
                assert(last[k - front.len() - 1] == ' ');
            }
        }
    }
}

/// **A program goes by its entry, else by its unit.**
pub proof fn lemma_what_a_program_goes_by(unit: Seq<char>, bodies: Seq<Option<String>>)
    ensures
        base_of(unit).len() == 0 ==> person_name(unit, bodies) == unit,
        base_of(unit).len() > 0 && first_name(bodies) is Some ==> person_name(unit, bodies)
            == first_name(bodies)->0,
        base_of(unit).len() > 0 && first_name(bodies) is None && last_part(base_of(unit)).len() > 0
            ==> person_name(unit, bodies) == fallback(
            unit,
            alphabetic(last_part(base_of(unit))[0]),
            uppercase(last_part(base_of(unit))[0]),
        ),
{
}

} // verus!
