//! Plain-text helpers shared by the document layer: the newline-joined file
//! form of a document and its inverse, and small character utilities.

use vstd::prelude::*;

verus! {

/// A line that may sit in a newline-joined text: it contains no newline
/// character itself.
pub open spec fn line_ok(s: Seq<char>) -> bool {
    forall|k: int| 0 <= k < s.len() ==> s[k] != '\n'
}

/// The persisted form of a document: its lines joined by single newline
/// characters, with no trailing newline after the last line.
pub open spec fn join_lines(lines: Seq<Seq<char>>) -> Seq<char>
    decreases lines.len(),
{
    if lines.len() == 0 {
        Seq::<char>::empty()
    } else if lines.len() == 1 {
        lines[0]
    } else {
        join_lines(lines.drop_last()) + seq!['\n'] + lines.last()
    }
}

/// Index of the first newline in `s`, or `s.len()` if there is none.
pub open spec fn first_nl(s: Seq<char>) -> int
    decreases s.len(),
{
    if s.len() == 0 {
        0
    } else if s[0] == '\n' {
        0
    } else {
        1 + first_nl(s.skip(1))
    }
}

/// Splitting a text at every newline character.  An empty text is one empty
/// line, so a file holds at least one line.
pub open spec fn split_lines(s: Seq<char>) -> Seq<Seq<char>>
    decreases s.len(),
    via split_lines_decreases
{
    let i = first_nl(s);
    if i >= s.len() {
        seq![s]
    } else {
        seq![s.take(i)] + split_lines(s.skip(i + 1))
    }
}

#[via_fn]
proof fn split_lines_decreases(s: Seq<char>) {
    lemma_first_nl_bounds(s);
}

proof fn lemma_first_nl_bounds(s: Seq<char>)
    ensures
        0 <= first_nl(s) <= s.len(),
        first_nl(s) < s.len() ==> s[first_nl(s)] == '\n',
        forall|k: int| 0 <= k < first_nl(s) ==> s[k] != '\n',
    decreases s.len(),
{
    if s.len() == 0 {
    } else if s[0] == '\n' {
    } else {
        lemma_first_nl_bounds(s.skip(1));
        assert forall|k: int| 0 <= k < first_nl(s) implies s[k] != '\n' by {
            if k > 0 {
                assert(s[k] == s.skip(1)[k - 1]);
            }
        }
    }
}

/// In a text that starts with a newline-free prefix followed by a newline,
/// the first newline sits exactly at the end of that prefix.
proof fn lemma_first_nl_of_line(a: Seq<char>, b: Seq<char>)
    requires
        line_ok(a),
    ensures
        first_nl(a + seq!['\n'] + b) == a.len(),
    decreases a.len(),
{
    let s = a + seq!['\n'] + b;
    if a.len() == 0 {
        assert(s[0] == '\n');
    } else {
        assert(s[0] == a[0]);
        assert(s.skip(1) =~= a.skip(1) + seq!['\n'] + b);
        lemma_first_nl_of_line(a.skip(1), b);
    }
}

/// Splitting distributes over a newline that joins two texts.
proof fn lemma_split_over_join(a: Seq<char>, b: Seq<char>)
    ensures
        split_lines(a + seq!['\n'] + b) == split_lines(a) + split_lines(b),
    decreases a.len(),
{
    let s = a + seq!['\n'] + b;
    lemma_first_nl_bounds(a);
    let i = first_nl(a);
    if i >= a.len() {
        // `a` holds no newline: it is the first segment of the split.
        assert(line_ok(a)) by {
            assert forall|k: int| 0 <= k < a.len() implies a[k] != '\n' by {
                assert(k < first_nl(a));
            }
        }
        lemma_first_nl_of_line(a, b);
        assert(s.take(a.len() as int) =~= a);
        assert(s.skip(a.len() as int + 1) =~= b);
        assert(split_lines(a) =~= seq![a]);
        assert(split_lines(s) =~= seq![a] + split_lines(b));
    } else {
        // The first newline of the joined text is the first newline of `a`.
        assert(first_nl(s) == i) by {
            assert(s.take(i + 1) =~= a.take(i + 1));
            lemma_first_nl_of_prefix(s, a, i);
        }
        assert(s.take(i) =~= a.take(i));
        assert(s.skip(i + 1) =~= a.skip(i + 1) + seq!['\n'] + b);
        lemma_split_over_join(a.skip(i + 1), b);
        assert(split_lines(s) =~= seq![a.take(i)] + split_lines(a.skip(i + 1)) + split_lines(b));
        assert(split_lines(a) =~= seq![a.take(i)] + split_lines(a.skip(i + 1)));
    }
}

/// Two texts that agree up to and including the position of the first
/// newline of the shorter view have the same first newline.
proof fn lemma_first_nl_of_prefix(s: Seq<char>, a: Seq<char>, i: int)
    requires
        0 <= i < a.len(),
        a[i] == '\n',
        first_nl(a) == i,
        s.len() >= i + 1,
        s.take(i + 1) == a.take(i + 1),
    ensures
        first_nl(s) == i,
    decreases i,
{
    lemma_first_nl_bounds(a);
    if i == 0 {
        assert(s[0] == a.take(1)[0]);
    } else {
        assert(a[0] != '\n');
        assert(s[0] == a.take(i + 1)[0]);
        assert(first_nl(a.skip(1)) == i - 1) by {
            assert(first_nl(a) == 1 + first_nl(a.skip(1)));
        }
        assert(a.skip(1)[i - 1] == a[i]);
        assert(s.skip(1).take(i) =~= a.skip(1).take(i)) by {
            assert(forall|k: int|
                0 <= k < i ==> s.skip(1).take(i)[k] == s.take(i + 1)[k + 1]);
            assert(forall|k: int|
                0 <= k < i ==> a.skip(1).take(i)[k] == a.take(i + 1)[k + 1]);
        }
        lemma_first_nl_of_prefix(s.skip(1), a.skip(1), i - 1);
    }
}

/// Joining lines and splitting the result reproduces the lines exactly,
/// for any non-empty sequence of newline-free lines.
pub proof fn lemma_split_join_round_trip(lines: Seq<Seq<char>>)
    requires
        lines.len() >= 1,
        forall|i: int| 0 <= i < lines.len() ==> #[trigger] line_ok(lines[i]),
    ensures
        split_lines(join_lines(lines)) == lines,
    decreases lines.len(),
{
    if lines.len() == 1 {
        let s = lines[0];
        lemma_first_nl_bounds(s);
        assert(first_nl(s) >= s.len()) by {
            if first_nl(s) < s.len() {
                assert(s[first_nl(s)] == '\n');
                assert(line_ok(lines[0]));
            }
        }
        assert(split_lines(s) =~= seq![s]);
        assert(split_lines(join_lines(lines)) =~= lines);
    } else {
        let front = lines.drop_last();
        assert(forall|i: int| 0 <= i < front.len() ==> #[trigger] line_ok(front[i])) by {
            assert(forall|i: int| 0 <= i < front.len() ==> front[i] == lines[i]);
        }
        lemma_split_join_round_trip(front);
        lemma_split_over_join(join_lines(front), lines.last());
        assert(line_ok(lines.last()));
        lemma_first_nl_bounds(lines.last());
        assert(first_nl(lines.last()) >= lines.last().len()) by {
            if first_nl(lines.last()) < lines.last().len() {
                assert(lines.last()[first_nl(lines.last())] == '\n');
            }
        }
        assert(split_lines(lines.last()) =~= seq![lines.last()]);
        assert(split_lines(join_lines(lines)) =~= front + seq![lines.last()]);
        assert(front + seq![lines.last()] =~= lines);
    }
}

/// The views of a vector of character vectors.
pub open spec fn views_of(lines: Seq<Vec<char>>) -> Seq<Seq<char>> {
    lines.map_values(|l: Vec<char>| l@)
}

/// Split a text at every newline character; the inverse of `join_text` and
/// the executable form of `split_lines`.
#[verifier::loop_isolation(false)]
pub fn split_text(text: &Vec<char>) -> (r: Vec<Vec<char>>)
    ensures
        views_of(r@) == split_lines(text@),
        r@.len() >= 1,
{
    let mut out: Vec<Vec<char>> = Vec::new();
    let mut cur: Vec<char> = Vec::new();
    proof {
        assert(cur@ + text@.skip(0) =~= text@);
        assert(views_of(out@) =~= Seq::<Seq<char>>::empty());
        assert(views_of(out@) + split_lines(text@) =~= split_lines(text@));
    }
    let mut p: usize = 0;
    while p < text.len()
        invariant
            p <= text@.len(),
            line_ok(cur@),
            split_lines(text@) == views_of(out@) + split_lines(cur@ + text@.skip(p as int)),
        decreases text@.len() - p,
    {
        let ghost out0 = out@;
        let ghost cur0 = cur@;
        let c = text[p];
        if c == '\n' {
            proof {
                lemma_first_nl_of_line(cur0, text@.skip(p + 1));
                let s = cur0 + seq!['\n'] + text@.skip(p + 1);
                assert(cur0 + text@.skip(p as int) =~= s);
                assert(s.take(cur0.len() as int) =~= cur0);
                assert(s.skip(cur0.len() as int + 1) =~= text@.skip(p + 1));
                assert(split_lines(s) =~= seq![cur0] + split_lines(text@.skip(p + 1)));
            }
            out.push(cur);
            cur = Vec::new();
            proof {
                assert(views_of(out@) =~= views_of(out0) + seq![cur0]);
                assert(cur@ + text@.skip(p + 1) =~= text@.skip(p + 1));
            }
        } else {
            cur.push(c);
            proof {
                assert(cur@ + text@.skip(p + 1) =~= cur0 + text@.skip(p as int));
                assert(line_ok(cur@)) by {
                    assert(forall|k: int| 0 <= k < cur0.len() ==> cur@[k] == cur0[k]);
                }
            }
        }
        p += 1;
        proof {
            assert(split_lines(text@) == views_of(out@) + split_lines(cur@ + text@.skip(p as int)));
        }
    }
    proof {
        assert(cur@ + text@.skip(p as int) =~= cur@);
        lemma_first_nl_bounds(cur@);
        assert(first_nl(cur@) >= cur@.len()) by {
            if first_nl(cur@) < cur@.len() {
                assert(cur@[first_nl(cur@)] == '\n');
            }
        }
        assert(split_lines(cur@) =~= seq![cur@]);
    }
    out.push(cur);
    proof {
        assert(views_of(out@) =~= split_lines(text@));
    }
    out
}

/// Join lines with single newline characters, no trailing newline; the
/// executable form of `join_lines`.
#[verifier::loop_isolation(false)]
pub fn join_text(lines: &Vec<Vec<char>>) -> (r: Vec<char>)
    ensures
        r@ == join_lines(views_of(lines@)),
{
    let mut out: Vec<char> = Vec::new();
    let mut i: usize = 0;
    while i < lines.len()
        invariant
            i <= lines@.len(),
            out@ == join_lines(views_of(lines@).take(i as int)),
        decreases lines@.len() - i,
    {
        if i > 0 {
            out.push('\n');
        }
        let line = &lines[i];
        proof {
            assert(line@.take(0) =~= Seq::<char>::empty());
            assert(line@ == views_of(lines@)[i as int]);
        }
        let mut k: usize = 0;
        while k < line.len()
            invariant
                k <= line@.len(),
                i < lines@.len(),
                out@ == if i > 0 {
                    join_lines(views_of(lines@).take(i as int)) + seq!['\n'] + line@.take(k as int)
                } else {
                    line@.take(k as int)
                },
            decreases line@.len() - k,
        {
            let c = line[k];
            out.push(c);
            k += 1;
            proof {
                assert(line@.take(k as int) =~= line@.take(k - 1).push(line@[k - 1]));
            }
        }
        i += 1;
        proof {
            let vs = views_of(lines@);
            assert(line@.take(line@.len() as int) =~= line@);
            assert(vs.take(i as int).drop_last() =~= vs.take(i - 1));
            assert(vs.take(i as int).last() == line@);
            if i > 1 {
                assert(out@ == join_lines(vs.take(i - 1)) + seq!['\n'] + line@);
            } else {
                assert(vs.take(1).len() == 1);
                assert(vs.take(1)[0] == line@);
                assert(out@ == line@);
            }
        }
    }
    proof {
        assert(views_of(lines@).take(lines@.len() as int) =~= views_of(lines@));
    }
    out
}

/// Decimal value of a digit character, or 10 for anything else.
pub open spec fn digit_val(c: char) -> int {
    if c == '0' {
        0
    } else if c == '1' {
        1
    } else if c == '2' {
        2
    } else if c == '3' {
        3
    } else if c == '4' {
        4
    } else if c == '5' {
        5
    } else if c == '6' {
        6
    } else if c == '7' {
        7
    } else if c == '8' {
        8
    } else if c == '9' {
        9
    } else {
        10
    }
}

pub open spec fn is_digit(c: char) -> bool {
    digit_val(c) < 10
}

pub open spec fn all_digits(s: Seq<char>) -> bool {
    forall|k: int| 0 <= k < s.len() ==> is_digit(#[trigger] s[k])
}

/// The digit character of a value below ten.
pub open spec fn char_of_digit(d: int) -> char {
    if d == 0 {
        '0'
    } else if d == 1 {
        '1'
    } else if d == 2 {
        '2'
    } else if d == 3 {
        '3'
    } else if d == 4 {
        '4'
    } else if d == 5 {
        '5'
    } else if d == 6 {
        '6'
    } else if d == 7 {
        '7'
    } else if d == 8 {
        '8'
    } else {
        '9'
    }
}

/// The decimal numeral of `n`, most significant digit first, without
/// leading zeros.
pub open spec fn dec_rep(n: nat) -> Seq<char>
    decreases n,
{
    if n < 10 {
        seq![char_of_digit(n as int)]
    } else {
        dec_rep(n / 10) + seq![char_of_digit((n % 10) as int)]
    }
}

/// The number a digit string denotes, an empty string denoting zero.
pub open spec fn dec_val(s: Seq<char>) -> int
    decreases s.len(),
{
    if s.len() == 0 {
        0
    } else {
        dec_val(s.drop_last()) * 10 + digit_val(s.last())
    }
}

proof fn lemma_dec_val_nonneg(s: Seq<char>)
    ensures
        dec_val(s) >= 0,
    decreases s.len(),
{
    if s.len() > 0 {
        lemma_dec_val_nonneg(s.drop_last());
    }
}

/// A digit string denotes at least what any of its prefixes denotes.
proof fn lemma_dec_val_prefix_le(s: Seq<char>, m: int)
    requires
        0 <= m <= s.len(),
    ensures
        dec_val(s.take(m)) <= dec_val(s),
    decreases s.len() - m,
{
    if m < s.len() {
        assert(s.take(m + 1).drop_last() =~= s.take(m));
        lemma_dec_val_nonneg(s.take(m));
        assert(dec_val(s.take(m + 1)) == dec_val(s.take(m)) * 10 + digit_val(s.take(m + 1).last()));
        lemma_dec_val_prefix_le(s, m + 1);
    } else {
        assert(s.take(m) =~= s);
    }
}

/// The numeral of `n` is a non-empty digit string that denotes `n`.
pub proof fn lemma_dec_rep_val(n: nat)
    ensures
        all_digits(dec_rep(n)),
        dec_rep(n).len() >= 1,
        dec_val(dec_rep(n)) == n,
    decreases n,
{
    if n < 10 {
        assert(dec_rep(n).drop_last() =~= Seq::<char>::empty());
        assert(dec_val(Seq::<char>::empty()) == 0);
        assert(dec_rep(n).last() == char_of_digit(n as int));
        assert(dec_val(dec_rep(n)) == digit_val(char_of_digit(n as int)));
        assert(digit_val(char_of_digit(n as int)) == n);
    } else {
        lemma_dec_rep_val(n / 10);
        assert(dec_rep(n).drop_last() =~= dec_rep(n / 10));
        assert(dec_rep(n).last() == char_of_digit((n % 10) as int));
        assert(n / 10 * 10 + n % 10 == n) by {
            vstd::arithmetic::div_mod::lemma_fundamental_div_mod(n as int, 10);
        }
        assert(0 <= n % 10 < 10);
        assert(digit_val(char_of_digit((n % 10) as int)) == n % 10);
        assert(dec_val(dec_rep(n)) == dec_val(dec_rep(n / 10)) * 10 + digit_val(
            char_of_digit((n % 10) as int),
        ));
        assert forall|k: int| 0 <= k < dec_rep(n).len() implies is_digit(
            #[trigger] dec_rep(n)[k],
        ) by {
            if k < dec_rep(n / 10).len() {
                assert(dec_rep(n)[k] == dec_rep(n / 10)[k]);
            }
        }
    }
}

fn digit_char(d: usize) -> (c: char)
    requires
        d < 10,
    ensures
        c == char_of_digit(d as int),
{
    if d == 0 {
        '0'
    } else if d == 1 {
        '1'
    } else if d == 2 {
        '2'
    } else if d == 3 {
        '3'
    } else if d == 4 {
        '4'
    } else if d == 5 {
        '5'
    } else if d == 6 {
        '6'
    } else if d == 7 {
        '7'
    } else if d == 8 {
        '8'
    } else {
        '9'
    }
}

fn digit_of_char(c: char) -> (r: usize)
    ensures
        r == digit_val(c),
{
    if c == '0' {
        0
    } else if c == '1' {
        1
    } else if c == '2' {
        2
    } else if c == '3' {
        3
    } else if c == '4' {
        4
    } else if c == '5' {
        5
    } else if c == '6' {
        6
    } else if c == '7' {
        7
    } else if c == '8' {
        8
    } else if c == '9' {
        9
    } else {
        10
    }
}

/// Append the decimal numeral of `n` to `out`.
pub fn push_dec(out: &mut Vec<char>, n: usize)
    ensures
        final(out)@ == old(out)@ + dec_rep(n as nat),
    decreases n,
{
    if n < 10 {
        let c = digit_char(n);
        out.push(c);
        proof {
            assert(old(out)@.push(c) =~= old(out)@ + dec_rep(n as nat));
        }
    } else {
        proof {
            vstd::arithmetic::div_mod::lemma_fundamental_div_mod(n as int, 10);
        }
        push_dec(out, n / 10);
        let c = digit_char(n % 10);
        out.push(c);
        proof {
            assert(old(out)@ + dec_rep((n / 10) as nat) + seq![c] =~= old(out)@ + dec_rep(n as nat));
        }
    }
}

/// Read `s[start..end]` as a decimal number.  `Some` exactly when the range
/// is non-empty, all digits, and the value fits a `usize`.
#[verifier::loop_isolation(false)]
pub fn parse_dec(s: &Vec<char>, start: usize, end: usize) -> (r: Option<usize>)
    requires
        start <= end <= s@.len(),
    ensures
        ({
            let seg = s@.subrange(start as int, end as int);
            match r {
                Some(v) => start < end && all_digits(seg) && dec_val(seg) == v,
                None => !(start < end && all_digits(seg) && dec_val(seg) <= usize::MAX),
            }
        }),
{
    let ghost seg = s@.subrange(start as int, end as int);
    if start >= end {
        return None;
    }
    let mut acc: usize = 0;
    let mut i: usize = start;
    while i < end
        invariant
            start <= i <= end,
            all_digits(s@.subrange(start as int, i as int)),
            acc == dec_val(s@.subrange(start as int, i as int)),
        decreases end - i,
    {
        let c = s[i];
        let d = digit_of_char(c);
        if d >= 10 {
            proof {
                assert(seg[i - start] == s@[i as int]);
                assert(!is_digit(seg[i - start]));
            }
            return None;
        }
        if acc > (usize::MAX - d) / 10 {
            proof {
                if all_digits(seg) {
                    vstd::arithmetic::div_mod::lemma_fundamental_div_mod(
                        (usize::MAX - d) as int,
                        10,
                    );
                    assert(acc * 10 + d > usize::MAX);
                    assert(seg.take(i + 1 - start) =~= s@.subrange(start as int, i + 1));
                    assert(s@.subrange(start as int, i + 1).drop_last() =~= s@.subrange(
                        start as int,
                        i as int,
                    ));
                    assert(s@.subrange(start as int, i + 1).last() == c);
                    assert(dec_val(seg.take(i + 1 - start)) == acc * 10 + d);
                    lemma_dec_val_prefix_le(seg, i + 1 - start);
                }
            }
            return None;
        }
        proof {
            vstd::arithmetic::div_mod::lemma_fundamental_div_mod((usize::MAX - d) as int, 10);
            assert(acc * 10 + d <= usize::MAX);
        }
        acc = acc * 10 + d;
        i += 1;
        proof {
            assert(s@.subrange(start as int, i as int).drop_last() =~= s@.subrange(
                start as int,
                i - 1,
            ));
            assert(s@.subrange(start as int, i as int).last() == c);
            assert forall|k: int| 0 <= k < i - start implies is_digit(
                #[trigger] s@.subrange(start as int, i as int)[k],
            ) by {
                if k < i - 1 - start {
                    assert(s@.subrange(start as int, i as int)[k] == s@.subrange(
                        start as int,
                        i - 1,
                    )[k]);
                }
            }
        }
    }
    proof {
        assert(s@.subrange(start as int, i as int) =~= seg);
    }
    Some(acc)
}

/// A horizontal-whitespace character, as trimmed from command arguments.
pub open spec fn is_space(c: char) -> bool {
    c == ' ' || c == '\t'
}

/// `s` without leading whitespace.
pub open spec fn trim_front(s: Seq<char>) -> Seq<char>
    decreases s.len(),
{
    if s.len() > 0 && is_space(s[0]) {
        trim_front(s.skip(1))
    } else {
        s
    }
}

/// `s` without trailing whitespace.
pub open spec fn trim_back(s: Seq<char>) -> Seq<char>
    decreases s.len(),
{
    if s.len() > 0 && is_space(s.last()) {
        trim_back(s.drop_last())
    } else {
        s
    }
}

/// `s` without leading and trailing whitespace.
pub open spec fn trimmed(s: Seq<char>) -> Seq<char> {
    trim_back(trim_front(s))
}

/// The characters of `s` from position `from` on, with surrounding
/// whitespace removed.
pub fn trim_range(s: &Vec<char>, from: usize) -> (r: Vec<char>)
    requires
        from <= s@.len(),
    ensures
        r@ == trimmed(s@.skip(from as int)),
{
    let n = s.len();
    let mut i: usize = from;
    while i < n
        invariant_except_break
            from <= i <= n,
            n == s@.len(),
            trim_front(s@.skip(from as int)) == trim_front(s@.skip(i as int)),
        ensures
            from <= i <= n,
            n == s@.len(),
            trim_front(s@.skip(from as int)) == s@.skip(i as int),
        decreases n - i,
    {
        let c = s[i];
        if c == ' ' || c == '\t' {
            proof {
                assert(s@.skip(i as int).skip(1) =~= s@.skip(i + 1));
            }
            i += 1;
        } else {
            proof {
                assert(s@.skip(i as int)[0] == c);
            }
            break;
        }
    }
    proof {
        if i == n {
            assert(s@.skip(n as int) =~= Seq::<char>::empty());
        }
    }
    let ghost target = s@.skip(i as int);
    proof {
        assert(target.take(n - i) =~= target);
    }
    let mut j: usize = n;
    while j > i
        invariant_except_break
            i <= j <= n,
            n == s@.len(),
            target == s@.skip(i as int),
            trim_back(target) == trim_back(target.take(j - i)),
        ensures
            i <= j <= n,
            n == s@.len(),
            target == s@.skip(i as int),
            trim_back(target) == target.take(j - i),
        decreases j,
    {
        let c = s[j - 1];
        if c == ' ' || c == '\t' {
            proof {
                assert(target.take(j - i).last() == s@[j - 1]);
                assert(target.take(j - i).drop_last() =~= target.take(j - 1 - i));
            }
            j -= 1;
        } else {
            proof {
                assert(target.take(j - i).last() == s@[j - 1]);
            }
            break;
        }
    }
    proof {
        if j == i {
            assert(target.take(0) =~= Seq::<char>::empty());
        }
    }
    let mut r: Vec<char> = Vec::new();
    let mut k: usize = i;
    while k < j
        invariant
            i <= k <= j <= s@.len(),
            target == s@.skip(i as int),
            r@ =~= target.take(k - i),
        decreases j - k,
    {
        let c = s[k];
        r.push(c);
        proof {
            assert(target.take(k + 1 - i) =~= target.take(k - i).push(s@[k as int]));
        }
        k += 1;
    }
    r
}

/// Whether `p` is a prefix of `s`.
pub open spec fn starts_with(s: Seq<char>, p: Seq<char>) -> bool {
    p.len() <= s.len() && s.take(p.len() as int) == p
}

/// Executable prefix test against `starts_with`.
#[verifier::loop_isolation(false)]
pub fn has_prefix(s: &Vec<char>, p: &Vec<char>) -> (r: bool)
    ensures
        r == starts_with(s@, p@),
{
    if p.len() > s.len() {
        return false;
    }
    let mut k: usize = 0;
    while k < p.len()
        invariant
            k <= p@.len() <= s@.len(),
            forall|t: int| 0 <= t < k ==> s@[t] == p@[t],
        decreases p@.len() - k,
    {
        if s[k] != p[k] {
            proof {
                if starts_with(s@, p@) {
                    assert(s@.take(p@.len() as int)[k as int] == s@[k as int]);
                }
            }
            return false;
        }
        k += 1;
    }
    proof {
        assert(s@.take(p@.len() as int) =~= p@);
    }
    true
}

/// Append all characters of `s` to `out`.
#[verifier::loop_isolation(false)]
pub fn append_chars(out: &mut Vec<char>, s: &Vec<char>)
    ensures
        final(out)@ == old(out)@ + s@,
{
    let mut k: usize = 0;
    while k < s.len()
        invariant
            k <= s@.len(),
            out@ =~= old(out)@ + s@.take(k as int),
        decreases s@.len() - k,
    {
        let c = s[k];
        out.push(c);
        proof {
            assert(s@.take(k + 1) =~= s@.take(k as int).push(s@[k as int]));
        }
        k += 1;
    }
    proof {
        assert(s@.take(s@.len() as int) =~= s@);
    }
}

/// Index of the first comma in `s`, or `s.len()` if there is none.
pub open spec fn first_comma(s: Seq<char>) -> int
    decreases s.len(),
{
    if s.len() == 0 {
        0
    } else if s[0] == ',' {
        0
    } else {
        1 + first_comma(s.skip(1))
    }
}

pub proof fn lemma_first_comma_bounds(s: Seq<char>)
    ensures
        0 <= first_comma(s) <= s.len(),
        first_comma(s) < s.len() ==> s[first_comma(s)] == ',',
        forall|k: int| 0 <= k < first_comma(s) ==> s[k] != ',',
    decreases s.len(),
{
    if s.len() == 0 {
    } else if s[0] == ',' {
    } else {
        lemma_first_comma_bounds(s.skip(1));
        assert forall|k: int| 0 <= k < first_comma(s) implies s[k] != ',' by {
            if k > 0 {
                assert(s[k] == s.skip(1)[k - 1]);
            }
        }
    }
}

/// Position of the first comma of `s` at or after `from`, or the length of
/// `s` if there is none.
pub fn find_comma(s: &Vec<char>, from: usize) -> (r: usize)
    requires
        from <= s@.len(),
    ensures
        from <= r <= s@.len(),
        r - from == first_comma(s@.skip(from as int)),
        r < s@.len() ==> s@[r as int] == ',',
{
    let n = s.len();
    let mut k: usize = from;
    while k < n
        invariant_except_break
            from <= k <= n,
            n == s@.len(),
            first_comma(s@.skip(from as int)) == k - from + first_comma(s@.skip(k as int)),
        ensures
            from <= k <= n,
            n == s@.len(),
            first_comma(s@.skip(from as int)) == k - from,
            k < n ==> s@[k as int] == ',',
        decreases n - k,
    {
        let c = s[k];
        if c == ',' {
            proof {
                assert(s@.skip(k as int)[0] == c);
            }
            break;
        }
        proof {
            assert(s@.skip(k as int)[0] == c);
            assert(s@.skip(k as int).skip(1) =~= s@.skip(k + 1));
        }
        k += 1;
    }
    proof {
        if k == n {
            assert(s@.skip(n as int) =~= Seq::<char>::empty());
        }
        lemma_first_comma_bounds(s@.skip(from as int));
    }
    k
}

/// The characters of `s` from position `from` on.
#[verifier::loop_isolation(false)]
pub fn tail_from(s: &Vec<char>, from: usize) -> (r: Vec<char>)
    requires
        from <= s@.len(),
    ensures
        r@ == s@.skip(from as int),
{
    let mut r: Vec<char> = Vec::new();
    let mut k: usize = from;
    while k < s.len()
        invariant
            from <= k <= s@.len(),
            r@ =~= s@.subrange(from as int, k as int),
        decreases s@.len() - k,
    {
        let c = s[k];
        r.push(c);
        proof {
            assert(s@.subrange(from as int, k + 1) =~= s@.subrange(from as int, k as int).push(
                s@[k as int],
            ));
        }
        k += 1;
    }
    proof {
        assert(s@.subrange(from as int, s@.len() as int) =~= s@.skip(from as int));
    }
    r
}

} // verus!
