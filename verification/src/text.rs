use vstd::prelude::*;

verus! {

/// The characters of `s`, in order.
pub fn chars_of(s: &str) -> (r: Vec<char>)
    ensures
        r@ == s@,
{
    let mut r: Vec<char> = Vec::new();
    for c in it: s.chars()
        invariant
            r@ == it.seq().take(it.index() as int),
            it.seq() == s@,
    {
        r.push(c);
    }
    r
}

/// Why a text is not a `u32` in decimal notation, as the standard library
/// classifies it (`core::num::IntErrorKind`).
#[derive(Debug, Clone, Copy, PartialEq, Eq, Structural)]
pub enum IntErrorKind {
    Empty,
    InvalidDigit,
    PosOverflow,
}

pub open spec fn is_digit(c: char) -> bool {
    '0' <= c && c <= '9'
}

pub open spec fn digit_value(c: char) -> nat {
    (c as int - '0' as int) as nat
}

/// The number that a string of decimal digits denotes.
pub open spec fn decimal_value(d: Seq<char>) -> nat
    decreases d.len(),
{
    if d.len() == 0 {
        0
    } else {
        decimal_value(d.drop_last()) * 10 + digit_value(d.last())
    }
}

pub open spec fn all_digits(d: Seq<char>) -> bool {
    forall|i: int| 0 <= i < d.len() ==> is_digit(#[trigger] d[i])
}

/// Some run of leading digits of `d` already denotes a number above `u32::MAX`.
pub open spec fn overflows_u32(d: Seq<char>) -> bool {
    exists|k: int|
        0 <= k <= d.len() && all_digits(#[trigger] d.take(k)) && decimal_value(d.take(k))
            > u32::MAX
}

/// The digits that follow an optional leading `+`.
pub open spec fn unsigned_digits(t: Seq<char>) -> Seq<char> {
    if t.len() > 0 && t[0] == '+' {
        t.skip(1)
    } else {
        t
    }
}

/// What `str::parse::<u32>` returns for `t`: an optional `+` followed by one or
/// more decimal digits whose value fits in a `u32`.
pub open spec fn parse_u32_spec(t: Seq<char>) -> Result<u32, IntErrorKind> {
    if t.len() == 0 {
        Err(IntErrorKind::Empty)
    } else if t.len() == 1 && (t[0] == '+' || t[0] == '-') {
        Err(IntErrorKind::InvalidDigit)
    } else if overflows_u32(unsigned_digits(t)) {
        Err(IntErrorKind::PosOverflow)
    } else if !all_digits(unsigned_digits(t)) {
        Err(IntErrorKind::InvalidDigit)
    } else {
        Ok(decimal_value(unsigned_digits(t)) as u32)
    }
}

proof fn lemma_decimal_value_monotone(d: Seq<char>, k: int, j: int)
    requires
        0 <= k <= j <= d.len(),
    ensures
        decimal_value(d.take(k)) <= decimal_value(d.take(j)),
    decreases j - k,
{
    if k < j {
        lemma_decimal_value_monotone(d, k, j - 1);
        assert(d.take(j).drop_last() =~= d.take(j - 1));
    }
}

/// Reads `t` as a `u32` the way `str::parse::<u32>` does.
fn parse_u32(t: &Vec<char>) -> (r: Result<u32, IntErrorKind>)
    ensures
        r == parse_u32_spec(t@),
{
    let n = t.len();
    if n == 0 {
        return Err(IntErrorKind::Empty);
    }
    if n == 1 && (t[0] == '+' || t[0] == '-') {
        return Err(IntErrorKind::InvalidDigit);
    }
    let start: usize = if t[0] == '+' { 1 } else { 0 };
    let ghost d = unsigned_digits(t@);
    assert(d =~= t@.skip(start as int));
    let mut acc: u64 = 0;
    let mut i: usize = start;
    while i < n
        invariant
            n == t@.len(),
            n >= 1,
            !(n == 1 && (t@[0] == '+' || t@[0] == '-')),
            start == (if t@[0] == '+' { 1usize } else { 0usize }),
            start <= i <= n,
            d == unsigned_digits(t@),
            d == t@.skip(start as int),
            acc <= u32::MAX,
            acc == decimal_value(d.take(i - start)),
            all_digits(d.take(i - start)),
        decreases n - i,
    {
        let c = t[i];
        let k: usize = i - start;
        assert(d[k as int] == c);
        if !('0' <= c && c <= '9') {
            proof {
                assert forall|m: int| 0 <= m <= d.len() && all_digits(#[trigger] d.take(m)) implies decimal_value(d.take(m)) <= u32::MAX by {
                    if m > k {
                        assert(d.take(m)[k as int] == c);
                    } else {
                        lemma_decimal_value_monotone(d, m, k as int);
                    }
                }
                assert(!all_digits(d));
            }
            return Err(IntErrorKind::InvalidDigit);
        }
        let digit: u64 = (c as u32 - '0' as u32) as u64;
        acc = acc * 10 + digit;
        proof {
            assert(d.take(k + 1).drop_last() =~= d.take(k as int));
            assert(d.take(k + 1).last() == c);
            assert(all_digits(d.take(k + 1))) by {
                assert forall|m: int| 0 <= m < k + 1 implies is_digit(#[trigger] d.take(k + 1)[m]) by {
                    if m < k {
                        assert(d.take(k + 1)[m] == d.take(k as int)[m]);
                    }
                }
            }
        }
        if acc > 0xffff_ffff {
            assert(overflows_u32(d)) by {
                assert(all_digits(d.take(k + 1)));
            }
            return Err(IntErrorKind::PosOverflow);
        }
        i = i + 1;
    }
    proof {
        assert(d.take(n - start) =~= d);
        assert forall|m: int| 0 <= m <= d.len() && all_digits(#[trigger] d.take(m)) implies decimal_value(d.take(m)) <= u32::MAX by {
            lemma_decimal_value_monotone(d, m, d.len() as int);
        }
    }
    Ok(acc as u32)
}


/// The pieces of `s` between the `:` separators, as `str::split(':')` yields them.
pub open spec fn split_fields(s: Seq<char>) -> Seq<Seq<char>>
    decreases s.len(),
{
    if s.len() == 0 {
        seq![Seq::<char>::empty()]
    } else {
        let r = split_fields(s.drop_last());
        if s.last() == ':' {
            r.push(Seq::<char>::empty())
        } else {
            r.update(r.len() - 1, r.last().push(s.last()))
        }
    }
}

pub proof fn lemma_split_fields_nonempty(s: Seq<char>)
    ensures
        split_fields(s).len() >= 1,
    decreases s.len(),
{
    if s.len() > 0 {
        lemma_split_fields_nonempty(s.drop_last());
    }
}

pub open spec fn views_of(v: Seq<Vec<char>>) -> Seq<Seq<char>> {
    v.map_values(|f: Vec<char>| f@)
}

fn split_on_colon(v: &Vec<char>) -> (r: Vec<Vec<char>>)
    ensures
        views_of(r@) == split_fields(v@),
{
    let mut done: Vec<Vec<char>> = Vec::new();
    let mut cur: Vec<char> = Vec::new();
    let n = v.len();
    for i in 0..n
        invariant
            n == v@.len(),
            views_of(done@).push(cur@) == split_fields(v@.take(i as int)),
    {
        proof {
            assert(v@.take(i + 1).drop_last() =~= v@.take(i as int));
            lemma_split_fields_nonempty(v@.take(i as int));
        }
        let ghost before = split_fields(v@.take(i as int));
        if v[i] == ':' {
            done.push(cur);
            cur = Vec::new();
            assert(views_of(done@).push(cur@) =~= before.push(Seq::<char>::empty()));
        } else {
            cur.push(v[i]);
            assert(views_of(done@).push(cur@) =~= before.update(before.len() - 1, before.last().push(v@[i as int])));
        }
    }
    assert(v@.take(n as int) =~= v@);
    let ghost last = cur@;
    done.push(cur);
    assert(views_of(done@) =~= views_of(done@.drop_last()).push(last));
    done
}

/// What reading `h:m:s` as a number of seconds comes to, following the order in
/// which the parts are read: a part that is not a number ends it with that
/// error; a missing part or an arithmetic overflow ends it in a panic.
#[derive(Debug, Clone, Copy, PartialEq, Eq, Structural)]
pub enum TimeOutcome {
    Seconds(u32),
    Invalid(IntErrorKind),
    Panics,
}

pub open spec fn time_outcome_spec(s: Seq<char>) -> TimeOutcome {
    let f = split_fields(s);
    match parse_u32_spec(f[0]) {
        Err(e) => TimeOutcome::Invalid(e),
        Ok(h) => if h * 3600 > u32::MAX || f.len() < 2 {
            TimeOutcome::Panics
        } else {
            match parse_u32_spec(f[1]) {
                Err(e) => TimeOutcome::Invalid(e),
                Ok(m) => if m * 60 > u32::MAX || h * 3600 + m * 60 > u32::MAX || f.len() < 3 {
                    TimeOutcome::Panics
                } else {
                    match parse_u32_spec(f[2]) {
                        Err(e) => TimeOutcome::Invalid(e),
                        Ok(sec) => if h * 3600 + m * 60 + sec > u32::MAX {
                            TimeOutcome::Panics
                        } else {
                            TimeOutcome::Seconds((h * 3600 + m * 60 + sec) as u32)
                        },
                    }
                },
            }
        },
    }
}

/// Reads a GTFS time `H:MM:SS` as a number of seconds, and says when the
/// reading cannot finish (a missing part or an overflow).
pub fn time_outcome(s: &str) -> (r: TimeOutcome)
    ensures
        r == time_outcome_spec(s@),
{
    let chars = chars_of(s);
    let f = split_on_colon(&chars);
    proof {
        lemma_split_fields_nonempty(s@);
    }
    let n = f.len();
    assert(f@[0]@ == split_fields(s@)[0]);
    let h = match parse_u32(&f[0]) {
        Err(e) => return TimeOutcome::Invalid(e),
        Ok(h) => h,
    };
    if h > 0xffff_ffff / 3600 || n < 2 {
        return TimeOutcome::Panics;
    }
    assert(f@[1]@ == split_fields(s@)[1]);
    let m = match parse_u32(&f[1]) {
        Err(e) => return TimeOutcome::Invalid(e),
        Ok(m) => m,
    };
    if m > 0xffff_ffff / 60 || h * 3600 > 0xffff_ffff - m * 60 || n < 3 {
        return TimeOutcome::Panics;
    }
    assert(f@[2]@ == split_fields(s@)[2]);
    let sec = match parse_u32(&f[2]) {
        Err(e) => return TimeOutcome::Invalid(e),
        Ok(sec) => sec,
    };
    if h * 3600 + m * 60 > 0xffff_ffff - sec {
        return TimeOutcome::Panics;
    }
    TimeOutcome::Seconds(h * 3600 + m * 60 + sec)
}

/// Reads a GTFS time `H:MM:SS` (hours may exceed 23) as a number of seconds.
/// Parts after the third are ignored. Defined on the texts whose reading
/// neither lacks a part nor overflows a `u32`.
pub fn parse_time(s: &str) -> (r: Result<u32, IntErrorKind>)
    requires
        time_outcome_spec(s@) != TimeOutcome::Panics,
    ensures
        match time_outcome_spec(s@) {
            TimeOutcome::Seconds(v) => r == Ok::<u32, IntErrorKind>(v),
            TimeOutcome::Invalid(e) => r == Err::<u32, IntErrorKind>(e),
            TimeOutcome::Panics => false,
        },
{
    match time_outcome(s) {
        TimeOutcome::Seconds(v) => Ok(v),
        TimeOutcome::Invalid(e) => Err(e),
        TimeOutcome::Panics => vstd::pervasive::unreached(),
    }
}


proof fn lemma_split_no_colon(d: Seq<char>)
    requires
        forall|i: int| 0 <= i < d.len() ==> d[i] != ':',
    ensures
        split_fields(d) == seq![d],
    decreases d.len(),
{
    if d.len() > 0 {
        let p = d.drop_last();
        assert forall|i: int| 0 <= i < p.len() implies p[i] != ':' by {
            assert(p[i] == d[i]);
        }
        lemma_split_no_colon(p);
        assert(d.last() != ':');
        assert(p.push(d.last()) =~= d);
        assert(seq![p].update(0, p.push(d.last())) =~= seq![d]);
    } else {
        assert(d =~= Seq::<char>::empty());
    }
}

proof fn lemma_split_concat(a: Seq<char>, b: Seq<char>)
    ensures
        split_fields(a + seq![':'] + b) == split_fields(a) + split_fields(b),
    decreases b.len(),
{
    let x = a + seq![':'] + b;
    if b.len() == 0 {
        assert(x.drop_last() =~= a);
        assert(x.last() == ':');
        assert(split_fields(a).push(Seq::<char>::empty()) =~= split_fields(a) + split_fields(b));
    } else {
        lemma_split_concat(a, b.drop_last());
        assert(x.drop_last() =~= a + seq![':'] + b.drop_last());
        assert(x.last() == b.last());
        let fa = split_fields(a);
        let fb = split_fields(b.drop_last());
        lemma_split_fields_nonempty(b.drop_last());
        if b.last() == ':' {
            assert((fa + fb).push(Seq::<char>::empty()) =~= fa + fb.push(Seq::<char>::empty()));
        } else {
            let r = fa + fb;
            assert(r.update(r.len() - 1, r.last().push(b.last())) =~= fa + fb.update(fb.len() - 1, fb.last().push(b.last())));
        }
    }
}

proof fn lemma_parse_digits(d: Seq<char>)
    requires
        d.len() > 0,
        all_digits(d),
        decimal_value(d) <= u32::MAX,
    ensures
        parse_u32_spec(d) == Ok::<u32, IntErrorKind>(decimal_value(d) as u32),
{
    assert(is_digit(d[0]));
    assert(unsigned_digits(d) == d);
    assert forall|k: int| 0 <= k <= d.len() && all_digits(#[trigger] d.take(k)) implies decimal_value(d.take(k)) <= u32::MAX by {
        lemma_decimal_value_monotone(d, k, d.len() as int);
        assert(d.take(d.len() as int) =~= d);
    }
}

/// A time written as three runs of digits `H:M:S` reads as `H * 3600 + M * 60 + S`
/// seconds, as long as that fits in a `u32`.
pub proof fn lemma_time_of_fields(h: Seq<char>, m: Seq<char>, s: Seq<char>)
    requires
        h.len() > 0 && all_digits(h),
        m.len() > 0 && all_digits(m),
        s.len() > 0 && all_digits(s),
        decimal_value(h) * 3600 + decimal_value(m) * 60 + decimal_value(s) <= u32::MAX,
    ensures
        time_outcome_spec(h + seq![':'] + m + seq![':'] + s) == TimeOutcome::Seconds(
            (decimal_value(h) * 3600 + decimal_value(m) * 60 + decimal_value(s)) as u32,
        ),
{
    assert forall|i: int| 0 <= i < h.len() implies h[i] != ':' by { assert(is_digit(h[i])); }
    assert forall|i: int| 0 <= i < m.len() implies m[i] != ':' by { assert(is_digit(m[i])); }
    assert forall|i: int| 0 <= i < s.len() implies s[i] != ':' by { assert(is_digit(s[i])); }
    lemma_split_no_colon(h);
    lemma_split_no_colon(m);
    lemma_split_no_colon(s);
    lemma_split_concat(h + seq![':'] + m, s);
    lemma_split_concat(h, m);
    let f = split_fields(h + seq![':'] + m + seq![':'] + s);
    assert(f =~= seq![h, m, s]);
    lemma_parse_digits(h);
    lemma_parse_digits(m);
    lemma_parse_digits(s);
}

} // verus!
