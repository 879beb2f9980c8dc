//! Texts that stay on one line.
//!
//! What is written line by line reads back line by line only where no line
//! holds a line break of its own.

use vstd::prelude::*;

use crate::decimal::{fixed, pow10, sign_text, with_places, zero_pad};
use crate::float::{Double, one, round_even, units};
use crate::incident::{log_char, log_chars, log_text};
use crate::report::{by_number, hex_char, json_char, json_chars, json_text};
use crate::text::{decimal, find, join, lemma_find, lines, repeat, strip_cr};
use crate::wellformed::lemma_decimal_digits;

verus! {

/// Is there no line break in a text?
#[verifier::opaque]
pub open spec fn unbroken(s: Seq<char>) -> bool {
    forall|k: int| 0 <= k < s.len() ==> #[trigger] s[k] != '\n'
}

pub proof fn lemma_unbroken_both(a: Seq<char>, b: Seq<char>)
    requires
        unbroken(a),
        unbroken(b),
    ensures
        unbroken(a + b),
{
    reveal(unbroken);
    assert forall|k: int| 0 <= k < (a + b).len() implies #[trigger] (a + b)[k] != '\n' by {
        if k < a.len() {
            assert((a + b)[k] == a[k]);
        } else {
            assert((a + b)[k] == b[k - a.len()]);
        }
    }
}

pub proof fn lemma_by_number_is_unbroken(c: char)
    requires
        (c as u32) < 0x20,
    ensures
        unbroken(by_number(c)),
{
    reveal(unbroken);
    let e = by_number(c);
    let high = c as nat / 16;
    let low = c as nat % 16;
    assert(hex_char(high) >= '0' && hex_char(low) >= '0');
    assert forall|k: int| 0 <= k < e.len() implies #[trigger] e[k] != '\n' by {
        assert(k == 0 || k == 1 || k == 2 || k == 3 || k == 4 || k == 5);
    }
}

pub proof fn lemma_json_chars_are_unbroken(s: Seq<char>)
    ensures
        unbroken(json_chars(s)),
    decreases s.len(),
{
    reveal(unbroken);
    if s.len() > 0 {
        lemma_json_chars_are_unbroken(s.drop_last());
        if (s.last() as u32) < 0x20 {
            lemma_by_number_is_unbroken(s.last());
        }
        assert(unbroken(json_char(s.last())));
        lemma_unbroken_both(json_chars(s.drop_last()), json_char(s.last()));
    }
}

pub proof fn lemma_json_text_is_unbroken(s: Seq<char>)
    ensures
        unbroken(json_text(s)),
{
    reveal(unbroken);
    lemma_json_chars_are_unbroken(s);
    lemma_unbroken_both(seq!['"'], json_chars(s));
    lemma_unbroken_both(seq!['"'] + json_chars(s), seq!['"']);
}

pub proof fn lemma_log_chars_are_unbroken(s: Seq<char>)
    ensures
        unbroken(log_chars(s)),
    decreases s.len(),
{
    reveal(unbroken);
    if s.len() > 0 {
        lemma_log_chars_are_unbroken(s.drop_last());
        if (s.last() as u32) < 0x20 {
            lemma_by_number_is_unbroken(s.last());
        }
        assert(unbroken(log_char(s.last())));
        lemma_unbroken_both(log_chars(s.drop_last()), log_char(s.last()));
    }
}

pub proof fn lemma_log_text_is_unbroken(s: Seq<char>)
    ensures
        unbroken(log_text(s)),
{
    reveal(unbroken);
    lemma_log_chars_are_unbroken(s);
    lemma_unbroken_both(seq!['"'], log_chars(s));
    lemma_unbroken_both(seq!['"'] + log_chars(s), seq!['"']);
}

pub proof fn lemma_decimal_is_unbroken(n: nat)
    ensures
        unbroken(decimal(n)),
{
    reveal(unbroken);
    lemma_decimal_digits(n);
    assert forall|k: int| 0 <= k < decimal(n).len() implies #[trigger] decimal(n)[k] != '\n' by {
        assert('0' <= decimal(n)[k]);
    }
}

pub proof fn lemma_fixed_is_unbroken(x: Double, n: nat)
    requires
        n > 0,
    ensures
        unbroken(fixed(x, n)),
{
    reveal(unbroken);
    if !x.is_nan() && !x.is_infinite() {
        let q = round_even(units(x.magnitude()) * pow10(n), one());
        let low = decimal(q % pow10(n));
        lemma_decimal_is_unbroken(q / pow10(n));
        lemma_decimal_is_unbroken(q % pow10(n));
        lemma_unbroken_both(repeat('0', n - low.len()), low);
        lemma_unbroken_both(decimal(q / pow10(n)), seq!['.']);
        lemma_unbroken_both(decimal(q / pow10(n)) + seq!['.'], zero_pad(low, n as int));
        lemma_unbroken_both(sign_text(x.negative()), with_places(q, n));
    } else {
        lemma_unbroken_both(sign_text(x.negative()), seq!['i', 'n', 'f']);
    }
}

/// A number does not end in a carriage return.
pub proof fn lemma_fixed_ends(x: Double, n: nat)
    requires
        n > 0,
    ensures
        fixed(x, n).len() > 0,
        fixed(x, n).last() != '\r',
{
    if !x.is_nan() && !x.is_infinite() {
        let q = round_even(units(x.magnitude()) * pow10(n), one());
        let low = decimal(q % pow10(n));
        lemma_decimal_digits(q % pow10(n));
        assert('0' <= low[low.len() - 1]);
        assert(fixed(x, n).last() == low.last());
    }
}

/// A number does not end in a carriage return.
pub proof fn lemma_decimal_ends(n: nat)
    ensures
        decimal(n).len() > 0,
        decimal(n).last() != '\r',
{
    lemma_decimal_digits(n);
    assert('0' <= decimal(n)[decimal(n).len() - 1]);
}

pub proof fn lemma_join_is_unbroken(parts: Seq<Seq<char>>)
    requires
        forall|k: int| 0 <= k < parts.len() ==> unbroken(#[trigger] parts[k]),
    ensures
        unbroken(join(parts, ","@)),
    decreases parts.len(),
{
    reveal(unbroken);
    reveal_strlit(",");
    if parts.len() > 1 {
        assert forall|k: int| 0 <= k < parts.drop_last().len() implies unbroken(
            #[trigger] parts.drop_last()[k],
        ) by {
            assert(unbroken(parts[k]));
        }
        lemma_join_is_unbroken(parts.drop_last());
        lemma_unbroken_both(join(parts.drop_last(), ","@), ","@);
        assert(unbroken(parts[parts.len() - 1]));
        lemma_unbroken_both(join(parts.drop_last(), ","@) + ","@, parts.last());
    } else if parts.len() == 1 {
        assert(unbroken(parts[0]));
    }
}

/// Lines in front of others.
pub proof fn lemma_lines_behind(a: Seq<char>, b: Seq<char>)
    requires
        a.len() == 0 || a.last() == '\n',
    ensures
        lines(a + b) == lines(a) + lines(b),
    decreases a.len(),
{
    if a.len() == 0 {
        assert(a + b =~= b);
        assert(lines(a) + lines(b) =~= lines(b));
    } else {
        lemma_find(a, '\n');
        lemma_find(a + b, '\n');
        let i = find(a, '\n');
        assert(i < a.len()) by {
            if i >= a.len() {
                assert(a[a.len() - 1] != '\n');
            }
        }
        assert(find(a + b, '\n') == i) by {
            let j = find(a + b, '\n');
            if j < i {
                assert((a + b)[j as int] == a[j as int]);
            }
            if i < j {
                assert((a + b)[i as int] == a[i as int]);
            }
        }
        assert((a + b).take(i as int) =~= a.take(i as int));
        let rest = a.skip(i as int + 1);
        assert((a + b).skip(i as int + 1) =~= rest + b);
        assert(rest.len() == 0 || rest.last() == a.last());
        lemma_lines_behind(rest, b);
        let first = seq![strip_cr(a.take(i as int))];
        assert(first + (lines(rest) + lines(b)) =~= first + lines(rest) + lines(b));
    }
}

/// A line with its line break is one line, where no carriage return stands at
/// its end.
pub proof fn lemma_single_line(line: Seq<char>)
    requires
        unbroken(line),
        line.len() > 0,
        line.last() != '\r',
    ensures
        lines(line + "\n"@) == seq![line],
{
    reveal(unbroken);
    reveal_strlit("\n");
    let text = line + "\n"@;
    lemma_find(text, '\n');
    assert(find(text, '\n') == line.len()) by {
        let j = find(text, '\n');
        if j < line.len() {
            assert(text[j as int] == line[j as int]);
        }
        assert(text[line.len() as int] == '\n');
    }
    assert(text.take(line.len() as int) =~= line);
    let rest = text.skip(line.len() as int + 1);
    assert(rest.len() == 0);
    assert(lines(rest) =~= seq![]);
    assert(lines(text) =~= seq![line]);
}

} // verus!
