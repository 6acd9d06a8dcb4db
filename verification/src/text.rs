//! Text rendering shared by the statement builder: decimal numbers and
//! quoted string literals.

use vstd::prelude::*;

verus! {

/// Appends one character: `String::push` of std, which puts the character at
/// the end and leaves the rest as it was.
#[verifier::external_body]
pub(crate) fn push_char(s: &mut String, c: char)
    ensures
        final(s)@ == old(s)@.push(c),
{
    s.push(c);
}

/// The character that stands for a decimal digit.
pub open spec fn digit_char(d: int) -> char {
    if d == 0 {
        '0'
    } else if d == 1 {
        '1'
    } else if d == 2 {
        '2'
    } else if d == 3 {
        '3'
    } else if d == 4 {
        '4'
    } else if d == 5 {
        '5'
    } else if d == 6 {
        '6'
    } else if d == 7 {
        '7'
    } else if d == 8 {
        '8'
    } else {
        '9'
    }
}

/// A natural number in decimal, without sign or leading zeros.
pub open spec fn decimal_text(n: nat) -> Seq<char>
    decreases n,
{
    if n < 10 {
        seq![digit_char(n as int)]
    } else {
        decimal_text(n / 10).push(digit_char((n % 10) as int))
    }
}

fn digit(d: u128) -> (c: char)
    requires
        d < 10,
    ensures
        c == digit_char(d as int),
{
    if d == 0 {
        '0'
    } else if d == 1 {
        '1'
    } else if d == 2 {
        '2'
    } else if d == 3 {
        '3'
    } else if d == 4 {
        '4'
    } else if d == 5 {
        '5'
    } else if d == 6 {
        '6'
    } else if d == 7 {
        '7'
    } else if d == 8 {
        '8'
    } else {
        '9'
    }
}

/// Appends `n` in decimal.
pub fn push_decimal(out: &mut String, n: u128)
    ensures
        final(out)@ == old(out)@ + decimal_text(n as nat),
    decreases n,
{
    if n >= 10 {
        push_decimal(out, n / 10);
    }
    push_char(out, digit(n % 10));
}

/// What stands for one character inside a quoted literal: the apostrophe is
/// doubled, every other character stands for itself.
pub open spec fn escaped_char(c: char) -> Seq<char> {
    if c == '\'' {
        seq!['\'', '\'']
    } else {
        seq![c]
    }
}

/// `s` with every apostrophe doubled.
pub open spec fn escaped(s: Seq<char>) -> Seq<char>
    decreases s.len(),
{
    if s.len() == 0 {
        Seq::empty()
    } else {
        escaped(s.drop_last()) + escaped_char(s.last())
    }
}

/// `s` as a quoted literal: between apostrophes, with its own apostrophes
/// doubled.
pub open spec fn quoted(s: Seq<char>) -> Seq<char> {
    seq!['\''] + escaped(s) + seq!['\'']
}

/// Reads the body of a quoted literal from position `at` of `text`, as a
/// scanner does that takes two apostrophes for one and a single apostrophe
/// for the end. Gives the content and the position after the closing
/// apostrophe, or `None` where the literal does not end.
pub open spec fn read_body(text: Seq<char>, at: int) -> Option<(Seq<char>, int)>
    decreases text.len() - at,
{
    if at < 0 || at >= text.len() {
        None
    } else if text[at] != '\'' {
        match read_body(text, at + 1) {
            Some((rest, end)) => Some((seq![text[at]] + rest, end)),
            None => None,
        }
    } else if at + 1 < text.len() && text[at + 1] == '\'' {
        match read_body(text, at + 2) {
            Some((rest, end)) => Some((seq!['\''] + rest, end)),
            None => None,
        }
    } else {
        Some((Seq::empty(), at + 1))
    }
}

/// Reads a quoted literal that starts at position `at` of `text`.
pub open spec fn read_literal(text: Seq<char>, at: int) -> Option<(Seq<char>, int)> {
    if 0 <= at < text.len() && text[at] == '\'' {
        read_body(text, at + 1)
    } else {
        None
    }
}

/// Escaping goes character by character, so it distributes over
/// concatenation.
pub proof fn lemma_escaped_concat(a: Seq<char>, b: Seq<char>)
    ensures
        escaped(a + b) == escaped(a) + escaped(b),
    decreases b.len(),
{
    if b.len() == 0 {
        assert(a + b =~= a);
        assert(escaped(a) + escaped(b) =~= escaped(a));
    } else {
        lemma_escaped_concat(a, b.drop_last());
        assert((a + b).drop_last() =~= a + b.drop_last());
        assert((a + b).last() == b.last());
        assert(escaped(a + b) =~= escaped(a) + escaped(b));
    }
}

proof fn lemma_read_escaped(text: Seq<char>, at: int, s: Seq<char>)
    requires
        0 <= at,
        at + escaped(s).len() < text.len(),
        text.subrange(at, at + escaped(s).len()) == escaped(s),
        text[at + escaped(s).len()] == '\'',
        at + escaped(s).len() + 1 < text.len() ==> text[at + escaped(s).len() + 1] != '\'',
    ensures
        read_body(text, at) == Some((s, at + escaped(s).len() + 1)),
    decreases s.len(),
{
    if s.len() == 0 {
        assert(escaped(s).len() == 0);
        assert(read_body(text, at).unwrap().0 =~= s);
    } else {
        let c = s[0];
        let tail = s.drop_first();
        assert(s =~= seq![c] + tail);
        lemma_escaped_concat(seq![c], tail);
        assert(seq![c].drop_last() =~= Seq::<char>::empty());
        assert(escaped(seq![c]) =~= escaped_char(c)) by {
            assert(escaped(Seq::<char>::empty()) =~= Seq::<char>::empty());
        }
        let e = escaped(s);
        let t = escaped(tail);
        assert(e == escaped_char(c) + t);
        let step = escaped_char(c).len() as int;
        let whole = text.subrange(at, at + e.len());
        assert(text[at] == whole[0]);
        assert(text.subrange(at + step, at + step + t.len()) =~= t) by {
            assert forall|i: int| 0 <= i < t.len() implies text.subrange(
                at + step,
                at + step + t.len(),
            )[i] == #[trigger] t[i] by {
                assert(t[i] == e[step + i]);
                assert(whole[step + i] == text[at + step + i]);
            }
        }
        lemma_read_escaped(text, at + step, tail);
        if c == '\'' {
            assert(text[at + 1] == whole[1]);
            assert(seq!['\''] + tail =~= s);
        } else {
            assert(seq![text[at]] + tail =~= s);
        }
    }
}

/// A quoted literal is read back as the text it was made from, and the
/// reading ends at its closing apostrophe, whatever the text held and
/// whatever surrounds the literal, as long as no apostrophe follows it
/// directly.
pub proof fn lemma_quoted_round_trip(before: Seq<char>, s: Seq<char>, after: Seq<char>)
    requires
        after.len() > 0 ==> after[0] != '\'',
    ensures
        read_literal(before + quoted(s) + after, before.len() as int) == Some(
            (s, (before.len() + quoted(s).len()) as int),
        ),
{
    let text = before + quoted(s) + after;
    let at = before.len() as int;
    let e = escaped(s);
    let n = e.len() as int;
    assert(quoted(s).len() == n + 2);
    assert(text[at] == quoted(s)[0]);
    assert(text.subrange(at + 1, at + 1 + n) =~= e);
    assert(text[at + 1 + n] == quoted(s)[1 + n]);
    if after.len() > 0 {
        assert(text[at + n + 2] == after[0]);
    }
    lemma_read_escaped(text, at + 1, s);
}

/// Appends `s` as a quoted literal.
pub fn push_quoted(out: &mut String, s: &str)
    ensures
        final(out)@ == old(out)@ + quoted(s@),
{
    push_char(out, '\'');
    let ghost start = out@;
    for c in it: s.chars()
        invariant
            it.seq() == s@,
            out@ == start + escaped(s@.take(it.index() as int)),
    {
        proof {
            let i = it.index() as int;
            assert(s@.take(i + 1).drop_last() =~= s@.take(i));
            assert(s@.take(i + 1).last() == c);
        }
        if c == '\'' {
            push_char(out, '\'');
            push_char(out, '\'');
        } else {
            push_char(out, c);
        }
        assert(out@ =~= start + escaped(s@.take(it.index() + 1)));
    }
    assert(s@.take(s@.len() as int) =~= s@);
    push_char(out, '\'');
    assert(out@ =~= old(out)@ + quoted(s@));
}

} // verus!
