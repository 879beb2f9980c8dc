//! What a settings file says, told from the text of it.

use vstd::prelude::*;

use crate::text::{ends_with, find, lemma_find, parse_i64, split, starts_with, trim};
use crate::toml::{
    Place, Progress, Section, Setting, after_line, after_lines, after_pair, alone, basic_string,
    closing_quote, comment_start, items, key_fault, led_by, uncommented, unquoted, value_in,
    with_pair, without_tail,
};

verus! {

// ── comments ───────────────────────────────────────────────────────────

/// Is there no quote and no comment here?
pub open spec fn plain(s: Seq<char>) -> bool {
    forall|i: int| 0 <= i < s.len() ==> #[trigger] s[i] != '#' && s[i] != '"' && s[i] != '\''
}

proof fn lemma_plain_goes_on(a: Seq<char>, b: Seq<char>)
    requires
        plain(a),
    ensures
        comment_start(a + b, None) == a.len() + comment_start(b, None),
    decreases a.len(),
{
    if a.len() == 0 {
        assert(a + b =~= b);
    } else {
        let t = a.drop_first();
        assert(a[0] != '#' && a[0] != '"' && a[0] != '\'');
        assert forall|i: int| 0 <= i < t.len() implies #[trigger] t[i] != '#' && t[i] != '"' && t[i]
            != '\'' by {
            assert(t[i] == a[i + 1]);
        }
        lemma_plain_goes_on(t, b);
        assert((a + b).drop_first() =~= t + b);
        assert((a + b)[0] == a[0]);
    }
}

proof fn lemma_quoted_goes_on(a: Seq<char>, q: char, b: Seq<char>)
    requires
        forall|i: int| 0 <= i < a.len() ==> #[trigger] a[i] != q,
    ensures
        comment_start(a + seq![q] + b, Some(q)) == a.len() + 1 + comment_start(b, None),
    decreases a.len(),
{
    let s = a + seq![q] + b;
    if a.len() == 0 {
        assert(s[0] == q);
        assert(s.drop_first() =~= b);
    } else {
        let t = a.drop_first();
        assert(a[0] != q);
        assert forall|i: int| 0 <= i < t.len() implies #[trigger] t[i] != q by {
            assert(t[i] == a[i + 1]);
        }
        lemma_quoted_goes_on(t, q, b);
        assert(s.drop_first() =~= t + seq![q] + b);
        assert(s[0] == a[0]);
    }
}

/// **A comment begins at the first `#` that no quotes enclose**, and goes to the
/// end of the line.
#[verifier::rlimit(50)]
pub proof fn lemma_where_a_comment_begins(
    front: Seq<char>,
    q: char,
    quoted: Seq<char>,
    behind: Seq<char>,
    comment: Seq<char>,
)
    requires
        plain(front),
        plain(behind),
        q == '"' || q == '\'',
        forall|i: int| 0 <= i < quoted.len() ==> #[trigger] quoted[i] != q,
    ensures
        uncommented(front + seq!['#'] + comment) == front,
        uncommented(front) == front,
        uncommented(front + seq![q] + quoted + seq![q] + behind + seq!['#'] + comment) == front
            + seq![q] + quoted + seq![q] + behind,
        uncommented(front + seq![q] + quoted + seq![q] + behind) == front + seq![q] + quoted
            + seq![q] + behind,
{
    let hash = seq!['#'] + comment;
    assert(comment_start(hash, None) == 0) by {
        assert(hash[0] == '#');
    }
    // Without quotes.
    lemma_plain_goes_on(front, hash);
    assert(front + seq!['#'] + comment =~= front + hash);
    assert((front + hash).take(front.len() as int) =~= front);
    lemma_plain_goes_on(front, seq![]);
    assert(front + Seq::<char>::empty() =~= front);
    assert(front.take(front.len() as int) =~= front);
    // With quotes.
    let rest = quoted + seq![q] + (behind + hash);
    lemma_plain_goes_on(behind, hash);
    lemma_quoted_goes_on(quoted, q, behind + hash);
    let open = seq![q] + rest;
    assert(open[0] == q);
    assert(open.drop_first() =~= rest);
    assert(comment_start(open, None) == 1 + comment_start(rest, Some(q)));
    lemma_plain_goes_on(front, open);
    let whole = front + seq![q] + quoted + seq![q] + behind + seq!['#'] + comment;
    let kept = front + seq![q] + quoted + seq![q] + behind;
    assert(whole =~= front + open);
    assert(whole.take(kept.len() as int) =~= kept);
    // And no comment.
    lemma_plain_goes_on(behind, seq![]);
    assert(behind + Seq::<char>::empty() =~= behind);
    lemma_quoted_goes_on(quoted, q, behind);
    let rest2 = quoted + seq![q] + behind;
    let open2 = seq![q] + rest2;
    assert(open2[0] == q);
    assert(open2.drop_first() =~= rest2);
    assert(comment_start(open2, None) == 1 + comment_start(rest2, Some(q)));
    lemma_plain_goes_on(front, open2);
    assert(kept =~= front + open2);
    assert(kept.take(kept.len() as int) =~= kept);
}

// ── values ─────────────────────────────────────────────────────────────

/// **Text between double quotes is that text**, and an escape stands for its
/// character: a quote, a backslash, a line feed, a tabulator.
pub proof fn lemma_text_between_double_quotes(c: char, rest: Seq<char>)
    ensures
        c != '"' && c != '\\' ==> basic_string(seq![c] + rest) == led_by(
            seq![c],
            basic_string(rest),
        ),
        basic_string(seq!['\\', '"'] + rest) == led_by(seq!['"'], basic_string(rest)),
        basic_string(seq!['\\', '\\'] + rest) == led_by(seq!['\\'], basic_string(rest)),
        basic_string(seq!['\\', 'n'] + rest) == led_by(seq!['\n'], basic_string(rest)),
        basic_string(seq!['\\', 't'] + rest) == led_by(seq!['\t'], basic_string(rest)),
        basic_string(seq!['"'] + rest) == Some(Seq::<char>::empty()),
        basic_string(seq![]) is None,
{
    assert((seq![c] + rest).skip(1) =~= rest);
    assert((seq!['\\', '"'] + rest).skip(2) =~= rest);
    assert((seq!['\\', '\\'] + rest).skip(2) =~= rest);
    assert((seq!['\\', 'n'] + rest).skip(2) =~= rest);
    assert((seq!['\\', 't'] + rest).skip(2) =~= rest);
}

proof fn lemma_plain_string(t: Seq<char>)
    requires
        forall|i: int| 0 <= i < t.len() ==> #[trigger] t[i] != '"' && t[i] != '\\',
    ensures
        basic_string(t + seq!['"']) == Some(t),
        closing_quote(t + seq!['"']) == t.len(),
    decreases t.len(),
{
    let s = t + seq!['"'];
    if t.len() == 0 {
        assert(s[0] == '"');
        assert(t =~= seq![]);
    } else {
        let r = t.drop_first();
        assert(t[0] != '"' && t[0] != '\\');
        assert forall|i: int| 0 <= i < r.len() implies #[trigger] r[i] != '"' && r[i] != '\\' by {
            assert(r[i] == t[i + 1]);
        }
        lemma_plain_string(r);
        assert(s.skip(1) =~= r + seq!['"']);
        assert(s[0] == t[0]);
        assert(seq![t[0]] + r =~= t);
    }
}

proof fn lemma_not_a_word(s: Seq<char>)
    requires
        s.len() > 0,
        s[0] != 't',
        s[0] != 'f',
    ensures
        s != "true"@,
        s != "false"@,
{
    reveal_strlit("true");
    reveal_strlit("false");
}

/// **What is quoted is a text, `true` and `false` are flags, and digits are a
/// number**; between single quotes nothing is an escape. Nothing may stand
/// behind a text.
pub proof fn lemma_what_a_value_is(t: Seq<char>, n: Seq<char>)
    ensures
        value_in("true"@) == Ok::<Setting, Seq<char>>(Setting::Bool(true)),
        value_in("false"@) == Ok::<Setting, Seq<char>>(Setting::Bool(false)),
        (forall|i: int| 0 <= i < t.len() ==> #[trigger] t[i] != '"' && t[i] != '\\') ==> value_in(
            seq!['"'] + t + seq!['"'],
        ) == Ok::<Setting, Seq<char>>(Setting::Str(t)),
        (forall|i: int| 0 <= i < t.len() ==> #[trigger] t[i] != '\'') ==> value_in(
            seq!['\''] + t + seq!['\''],
        ) == Ok::<Setting, Seq<char>>(Setting::Str(t)),
        n.len() > 0 && n[0] != 't' && n[0] != 'f' && n[0] != '[' && n[0] != '"' && n[0] != '\'' ==> (
        match parse_i64(n) {
            Some(i) => value_in(n) == Ok::<Setting, Seq<char>>(Setting::Int(i)),
            None => value_in(n) is Err,
        }),
{
    reveal_strlit("true");
    reveal_strlit("false");
    assert("true"@[0] != "false"@[0]);
    if forall|i: int| 0 <= i < t.len() ==> #[trigger] t[i] != '"' && t[i] != '\\' {
        let s = seq!['"'] + t + seq!['"'];
        lemma_plain_string(t);
        lemma_not_a_word(s);
        let inner = t + seq!['"'];
        assert(s.skip(1) =~= inner);
        assert(inner.skip(t.len() as int + 1) =~= seq![]);
        assert(value_in(s) == alone(t, seq![]));
    }
    if forall|i: int| 0 <= i < t.len() ==> #[trigger] t[i] != '\'' {
        let s = seq!['\''] + t + seq!['\''];
        lemma_not_a_word(s);
        let inner = t + seq!['\''];
        assert(s.skip(1) =~= inner);
        lemma_find(inner, '\'');
        let k = find(inner, '\'') as int;
        if k < t.len() {
            assert(inner[k] == t[k]);
        }
        assert(inner[t.len() as int] == '\'');
        assert(k == t.len());
        assert(inner.take(k) =~= t);
        assert(inner.skip(k + 1) =~= seq![]);
        assert(value_in(s) == alone(t, seq![]));
    }
    if n.len() > 0 && n[0] != 't' && n[0] != 'f' {
        lemma_not_a_word(n);
    }
}

/// **A list is what commas part**, each without the blanks and the quotes around
/// it; what is empty is left out.
pub proof fn lemma_a_list_is_what_commas_part(inner: Seq<char>)
    requires
        !ends_with(inner, "]"@),
    ensures
        value_in(seq!['['] + inner + seq![']']) == Ok::<Setting, Seq<char>>(
            Setting::Arr(items(split(inner, ','))),
        ),
{
    let s = seq!['['] + inner + seq![']'];
    lemma_not_a_word(s);
    reveal_strlit("]");
    assert("]"@ =~= seq![']']);
    let t = inner + seq![']'];
    assert(s.skip(1) =~= t);
    assert(t.skip(inner.len() as int) =~= "]"@);
    assert(ends_with(t, "]"@));
    assert(t.take(inner.len() as int) =~= inner);
    reveal_with_fuel(without_tail, 2);
    assert(without_tail(t, "]"@) == inner);
}

/// **The items of a list, one by one.**
pub proof fn lemma_the_items_of_a_list(pieces: Seq<Seq<char>>, last: Seq<char>)
    ensures
        items(seq![]) == Seq::<Seq<char>>::empty(),
        trim(last).len() == 0 ==> items(pieces.push(last)) == items(pieces),
        trim(last).len() > 0 ==> items(pieces.push(last)) == items(pieces).push(
            unquoted(trim(last)),
        ),
{
    assert(pieces.push(last).drop_last() =~= pieces);
}

/// **Quotes around an item are dropped.**
pub proof fn lemma_quotes_around_an_item_are_dropped(t: Seq<char>, q: char)
    requires
        q == '"' || q == '\'',
        t.len() > 0,
        t[0] != '"' && t[0] != '\'',
        t.last() != '"' && t.last() != '\'',
    ensures
        unquoted(seq![q] + t + seq![q]) == t,
        unquoted(t) == t,
{
    let s = seq![q] + t + seq![q];
    let r = t + seq![q];
    assert(s.drop_first() =~= r);
    assert(s[0] == q);
    assert(r[0] == t[0]);
    assert(r.last() == q);
    assert(r.drop_last() =~= t);
    reveal_with_fuel(unquoted, 3);
}

// ── lines ──────────────────────────────────────────────────────────────

/// **A key stands before the first equals sign, its value behind it**, and the
/// blanks around them do not count. A key that the table does not have, or a
/// value that is not of its kind, is refused.
pub proof fn lemma_a_key_and_its_value(p: Progress, key: Seq<char>, value: Seq<char>)
    requires
        forall|i: int| 0 <= i < key.len() ==> #[trigger] key[i] != '=',
    ensures
        ({
            let r = after_pair(p, key + seq!['='] + value);
            &&& value_in(trim(value)) is Err ==> r is Err
            &&& value_in(trim(value)) matches Ok(v) ==> {
                &&& key_fault(p.place, trim(key), v) is Some ==> r is Err
                &&& key_fault(p.place, trim(key), v) is None ==> r == Ok::<Progress, Seq<char>>(
                    with_pair(p, trim(key), v),
                )
            }
            &&& after_pair(p, key) is Err
        }),
{
    let s = key + seq!['='] + value;
    lemma_find(s, '=');
    lemma_find(key, '=');
    let k = find(s, '=') as int;
    let n = key.len() as int;
    if k < n {
        assert(s[k] == key[k]);
    }
    assert(s[n] == '=');
    assert(k == n);
    assert(s.take(n) =~= key);
    assert(s.skip(n + 1) =~= value);
    if find(key, '=') < key.len() {
        assert(key[find(key, '=') as int] != '=');
    }
}

/// **Which keys a table has, and of what kind they are.**
#[verifier::rlimit(50)]
pub proof fn lemma_which_keys_a_table_has(key: Seq<char>, v: Setting)
    ensures
        key == "threshold_ms"@ || key == "capture_ms"@ || key == "history_secs"@ ==> (key_fault(
            Place::Capture,
            key,
            v,
        ) is None <==> v is Int),
        key == "resources"@ ==> (key_fault(Place::Capture, key, v) is None <==> v is Arr && forall|
            i: int,
        |
            0 <= i < (v->Arr_0).len() ==> #[trigger] (v->Arr_0)[i] == "cpu"@ || (v->Arr_0)[i]
                == "memory"@ || (v->Arr_0)[i] == "io"@),
        key == "enabled"@ ==> (key_fault(Place::Notify, key, v) is None <==> v is Bool),
        key == "min_peak"@ || key == "cooldown_secs"@ ==> (key_fault(Place::Notify, key, v) is None
            <==> v is Int),
        key == "name"@ || key == "when"@ || key == "run"@ || key == "log"@ ==> (key_fault(
            Place::Rule,
            key,
            v,
        ) is None <==> v is Str),
        key == "notify"@ ==> (key_fault(Place::Rule, key, v) is None <==> v is Bool),
        key_fault(Place::Outside, key, v) is Some,
        key != "threshold_ms"@ && key != "capture_ms"@ && key != "history_secs"@ && key
            != "resources"@ ==> key_fault(Place::Capture, key, v) is Some,
        key != "enabled"@ && key != "min_peak"@ && key != "cooldown_secs"@ ==> key_fault(
            Place::Notify,
            key,
            v,
        ) is Some,
        key != "name"@ && key != "when"@ && key != "run"@ && key != "log"@ && key != "notify"@
            ==> key_fault(Place::Rule, key, v) is Some,
{
    reveal_strlit("threshold_ms");
    reveal_strlit("capture_ms");
    reveal_strlit("history_secs");
    reveal_strlit("resources");
    reveal_strlit("enabled");
    reveal_strlit("min_peak");
    reveal_strlit("cooldown_secs");
    reveal_strlit("name");
    reveal_strlit("when");
    reveal_strlit("run");
    reveal_strlit("log");
    reveal_strlit("notify");
    assert("resources"@[0] != "threshold_ms"@[0]);
    assert("resources"@[0] != "capture_ms"@[0]);
    assert("resources"@[0] != "history_secs"@[0]);
    assert("min_peak"@[0] != "enabled"@[0]);
    assert("cooldown_secs"@[0] != "enabled"@[0]);
    assert("notify"@.len() != "name"@.len());
    assert("notify"@[0] != "when"@[0]);
    assert("notify"@[0] != "run"@[0]);
    assert("notify"@[0] != "log"@[0]);
}

/// **A key goes into the table it stands in**, over what it had there, and no
/// other key or table changes.
#[verifier::rlimit(50)]
pub proof fn lemma_a_key_goes_into_its_table(
    p: Progress,
    key: Seq<char>,
    v: Setting,
    other: Seq<char>,
)
    requires
        p.place == Place::Capture ==> p.doc.capture is Some,
        p.place == Place::Notify ==> p.doc.notify is Some,
        p.place == Place::Rule ==> p.doc.rules.len() > 0,
        other != key,
    ensures
        ({
            let q = with_pair(p, key, v);
            &&& q.place == p.place
            &&& p.place == Place::Capture ==> q.doc.capture is Some && (
            q.doc.capture->0).keys.contains_key(key) && (q.doc.capture->0).keys[key] == v && (
            q.doc.capture->0).keys.contains_key(other) == (p.doc.capture->0).keys.contains_key(
                other,
            ) && (q.doc.capture->0).keys[other] == (p.doc.capture->0).keys[other]
            &&& p.place != Place::Capture ==> q.doc.capture == p.doc.capture
            &&& p.place == Place::Notify ==> q.doc.notify is Some && (
            q.doc.notify->0).keys.contains_key(key) && (q.doc.notify->0).keys[key] == v && (
            q.doc.notify->0).keys.contains_key(other) == (p.doc.notify->0).keys.contains_key(other)
                && (q.doc.notify->0).keys[other] == (p.doc.notify->0).keys[other]
            &&& p.place != Place::Notify ==> q.doc.notify == p.doc.notify
            &&& p.place == Place::Rule ==> q.doc.rules.len() == p.doc.rules.len()
                && q.doc.rules.last().keys.contains_key(key) && q.doc.rules.last().keys[key] == v
                && q.doc.rules.last().keys.contains_key(other)
                == p.doc.rules.last().keys.contains_key(other) && q.doc.rules.last().keys[other]
                == p.doc.rules.last().keys[other] && q.doc.rules.last().line
                == p.doc.rules.last().line && forall|i: int|
                0 <= i < p.doc.rules.len() - 1 ==> q.doc.rules[i] == #[trigger] p.doc.rules[i]
            &&& p.place != Place::Rule ==> q.doc.rules == p.doc.rules
        }),
{
}

/// **A wrong line is reported by its number**: the first one, counted from one.
pub proof fn lemma_the_first_wrong_line_is_reported(l: Seq<Seq<char>>, n: nat)
    requires
        n <= l.len(),
    ensures
        after_lines(l, n) matches Err(e) ==> 1 <= e.line <= n && after_lines(
            l,
            (e.line - 1) as nat,
        ) is Ok && after_line(
            after_lines(l, (e.line - 1) as nat)->Ok_0,
            l[e.line - 1],
            e.line,
        ) == Err::<Progress, Seq<char>>(e.msg),
    decreases n,
{
    if n > 0 {
        lemma_the_first_wrong_line_is_reported(l, (n - 1) as nat);
    }
}

/// **A table is opened by its name in brackets, a rule by `[[rule]]`**: a table
/// that was open before goes on, a rule is a new one each time. No other name is
/// taken.
#[verifier::rlimit(50)]
pub proof fn lemma_tables_are_opened_by_name(
    p: Progress,
    raw: Seq<char>,
    name: Seq<char>,
    line: nat,
)
    requires
        name.len() > 0,
        trim(name) == name,
        name[0] != '[',
        name.last() != ']',
    ensures
        trim(uncommented(raw)) == seq!['['] + name + seq![']'] ==> {
            let r = after_line(p, raw, line);
            &&& name == "capture"@ ==> r is Ok && (r->Ok_0).place == Place::Capture && (
            r->Ok_0).doc.capture == Some(
                match p.doc.capture {
                    Some(t) => t,
                    None => Section { line, keys: Map::empty() },
                },
            ) && (r->Ok_0).doc.notify == p.doc.notify && (r->Ok_0).doc.rules == p.doc.rules
            &&& name == "notify"@ ==> r is Ok && (r->Ok_0).place == Place::Notify && (
            r->Ok_0).doc.notify == Some(
                match p.doc.notify {
                    Some(t) => t,
                    None => Section { line, keys: Map::empty() },
                },
            ) && (r->Ok_0).doc.capture == p.doc.capture && (r->Ok_0).doc.rules == p.doc.rules
            &&& name != "capture"@ && name != "notify"@ ==> r is Err
        },
        trim(uncommented(raw)) == seq!['[', '['] + name + seq![']', ']'] ==> {
            let r = after_line(p, raw, line);
            &&& name == "rule"@ ==> r is Ok && (r->Ok_0).place == Place::Rule && (
            r->Ok_0).doc.rules == p.doc.rules.push(Section { line, keys: Map::empty() }) && (
            r->Ok_0).doc.capture == p.doc.capture && (r->Ok_0).doc.notify == p.doc.notify
            &&& name != "rule"@ ==> r is Err
        },
        trim(uncommented(raw)).len() == 0 ==> after_line(p, raw, line) == Ok::<
            Progress,
            Seq<char>,
        >(p),
{
    reveal_strlit("[[");
    reveal_strlit("]");
    reveal_strlit("]]");
    reveal_strlit("capture");
    reveal_strlit("notify");
    assert("capture"@[0] != "notify"@[0]);
    reveal_with_fuel(without_tail, 2);
    let one = seq!['['] + name + seq![']'];
    assert("]"@ =~= seq![']']);
    assert(!starts_with(one, "[["@)) by {
        if starts_with(one, "[["@) {
            assert(one.take(2)[1] == '[');
        }
    }
    let t = name + seq![']'];
    assert(one.skip(1) =~= t);
    assert(t.skip(name.len() as int) =~= "]"@);
    assert(t.take(name.len() as int) =~= name);
    assert(!ends_with(name, "]"@)) by {
        if ends_with(name, "]"@) {
            assert(name.skip(name.len() - 1)[0] == name.last());
        }
    }
    assert(without_tail(t, "]"@) == name);
    let two = seq!['[', '['] + name + seq![']', ']'];
    assert("]]"@ =~= seq![']', ']']);
    assert(two.take(2) =~= "[["@);
    assert(starts_with(two, "[["@));
    let u = name + seq![']', ']'];
    assert(two.skip(2) =~= u);
    assert(u.skip(name.len() as int) =~= "]]"@);
    assert(u.take(name.len() as int) =~= name);
    assert(!ends_with(name, "]]"@)) by {
        if ends_with(name, "]]"@) {
            assert(name.skip(name.len() - 2)[1] == name.last());
        }
    }
    assert(without_tail(u, "]]"@) == name);
}

} // verus!
