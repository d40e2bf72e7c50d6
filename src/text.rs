use vstd::prelude::*;

verus! {

/// The characters of `s`, in order.
pub fn chars_of(s: &str) -> (r: Vec<char>)
    ensures
        r@ == s@,
{
    let mut out: Vec<char> = Vec::new();
    for c in it: s.chars()
        invariant
            out@ == it.seq().take(it.index() as int),
            it.seq() == s@,
    {
        out.push(c);
    }
    out
}

/// The pieces of `s` between occurrences of `sep`; there is always at least one.
pub open spec fn split_on(s: Seq<char>, sep: char) -> Seq<Seq<char>>
    decreases s.len(),
{
    if s.len() == 0 {
        seq![Seq::empty()]
    } else {
        let parts = split_on(s.drop_last(), sep);
        if s.last() == sep {
            parts.push(Seq::empty())
        } else {
            parts.update(parts.len() - 1, parts.last().push(s.last()))
        }
    }
}

pub proof fn lemma_split_nonempty(s: Seq<char>, sep: char)
    ensures
        split_on(s, sep).len() >= 1,
    decreases s.len(),
{
    if s.len() > 0 {
        lemma_split_nonempty(s.drop_last(), sep);
    }
}

pub open spec fn views(v: Seq<Vec<char>>) -> Seq<Seq<char>> {
    v.map_values(|p: Vec<char>| p@)
}

/// Splits `s` at every `sep`, keeping empty pieces.
pub fn split_chars(s: &Vec<char>, sep: char) -> (r: Vec<Vec<char>>)
    ensures
        views(r@) == split_on(s@, sep),
{
    let mut done: Vec<Vec<char>> = Vec::new();
    let mut cur: Vec<char> = Vec::new();
    let mut i: usize = 0;
    assert(s@.take(0) =~= Seq::<char>::empty());
    assert(views(done@).push(cur@) =~= split_on(s@.take(0), sep));
    while i < s.len()
        invariant
            i <= s.len(),
            views(done@).push(cur@) == split_on(s@.take(i as int), sep),
        decreases s.len() - i,
    {
        let c = s[i];
        proof {
            assert(s@.take(i + 1).drop_last() =~= s@.take(i as int));
            lemma_split_nonempty(s@.take(i as int), sep);
        }
        if c == sep {
            let ghost before = views(done@).push(cur@);
            done.push(cur);
            cur = Vec::new();
            assert(views(done@).push(cur@) =~= before.push(Seq::empty()));
        } else {
            let ghost before = views(done@).push(cur@);
            cur.push(c);
            assert(views(done@).push(cur@) =~= before.update(
                before.len() - 1,
                before.last().push(c),
            ));
        }
        i += 1;
    }
    assert(s@.take(s.len() as int) =~= s@);
    let ghost fin = views(done@).push(cur@);
    done.push(cur);
    assert(views(done@) =~= fin);
    done
}

/// The first line of a grid text, without a carriage return that ends it.
pub open spec fn header_of(t: Seq<char>) -> Seq<char> {
    let parts = split_on(t, '\n');
    let h = parts[0];
    if parts.len() > 1 && h.len() > 0 && h.last() == '\r' {
        h.drop_last()
    } else {
        h
    }
}

/// The tile rows of a grid text: every line after the first.
pub open spec fn rows_of(t: Seq<char>) -> Seq<Seq<char>> {
    split_on(t, '\n').drop_first()
}

pub open spec fn is_digit(c: char) -> bool {
    '0' <= c && c <= '9'
}

pub open spec fn all_digits(s: Seq<char>) -> bool {
    forall|i: int| 0 <= i < s.len() ==> is_digit(#[trigger] s[i])
}

/// The decimal value of a run of digits.
pub open spec fn digits_value(s: Seq<char>) -> int
    decreases s.len(),
{
    if s.len() == 0 {
        0
    } else {
        digits_value(s.drop_last()) * 10 + (s.last() as int - '0' as int)
    }
}

/// A decimal integer with an optional leading sign and at least one digit.
pub open spec fn int_value(t: Seq<char>) -> Option<int> {
    if t.len() > 0 && (t[0] == '-' || t[0] == '+') {
        let d = t.drop_first();
        if d.len() > 0 && all_digits(d) {
            Some(
                if t[0] == '-' {
                    -digits_value(d)
                } else {
                    digits_value(d)
                },
            )
        } else {
            None
        }
    } else if t.len() > 0 && all_digits(t) {
        Some(digits_value(t))
    } else {
        None
    }
}

/// A door cost token: a decimal integer that fits in an `i32`.
pub open spec fn cost_value(t: Seq<char>) -> Option<i32> {
    match int_value(t) {
        Some(v) => if i32::MIN <= v <= i32::MAX {
            Some(v as i32)
        } else {
            None
        },
        None => None,
    }
}

/// Every token read as a cost, or `None` if one of them is not a cost.
pub open spec fn all_costs(toks: Seq<Seq<char>>) -> Option<Seq<i32>>
    decreases toks.len(),
{
    if toks.len() == 0 {
        Some(Seq::empty())
    } else {
        match (all_costs(toks.drop_last()), cost_value(toks.last())) {
            (Some(a), Some(v)) => Some(a.push(v)),
            _ => None,
        }
    }
}

/// The door costs that a header line lists, comma separated. Every token must be a
/// cost, so an empty line (one empty token) lists none and is malformed.
pub open spec fn door_costs(header: Seq<char>) -> Option<Seq<i32>> {
    all_costs(split_on(header, ','))
}

proof fn lemma_digits_grow(s: Seq<char>, k: int)
    requires
        all_digits(s),
        0 <= k <= s.len(),
    ensures
        digits_value(s) >= digits_value(s.take(k)),
        digits_value(s.take(k)) >= 0,
    decreases s.len(),
{
    if s.len() > 0 {
        assert(all_digits(s.drop_last()));
        if k == s.len() {
            assert(s.take(k) =~= s);
            lemma_digits_grow(s.drop_last(), k - 1);
            assert(s.drop_last().take(k - 1) =~= s.drop_last());
        } else {
            lemma_digits_grow(s.drop_last(), k);
            assert(s.drop_last().take(k) =~= s.take(k));
            assert(is_digit(s[s.len() - 1]));
        }
    } else {
        assert(s.take(k) =~= s);
    }
}

/// Reads one door cost token.
pub fn parse_cost(tok: &Vec<char>) -> (r: Option<i32>)
    ensures
        r == cost_value(tok@),
{
    let n = tok.len();
    if n == 0 {
        return None;
    }
    let first = tok[0];
    let signed = first == '-' || first == '+';
    let start: usize = if signed { 1 } else { 0 };
    if start == n {
        return None;
    }
    let ghost d = tok@.subrange(start as int, n as int);
    assert(signed ==> d =~= tok@.drop_first());
    assert(!signed ==> d =~= tok@);
    let mut acc: i64 = 0;
    let mut i: usize = start;
    while i < n
        invariant
            start <= i <= n,
            n == tok.len(),
            d == tok@.subrange(start as int, n as int),
            first == tok@[0],
            signed == (first == '-' || first == '+'),
            signed ==> d == tok@.drop_first(),
            !signed ==> d == tok@,
            d.len() > 0,
            all_digits(d.take(i - start)),
            acc == digits_value(d.take(i - start)),
            0 <= acc <= 2147483648,
        decreases n - i,
    {
        let c = tok[i];
        if !('0' <= c && c <= '9') {
            assert(d[i - start] == c);
            assert(!is_digit(d[i - start]));
            assert(!all_digits(d));
            assert(!signed ==> !all_digits(tok@));
            return None;
        }
        let dv = (c as u32 - '0' as u32) as i64;
        proof {
            assert(d.take(i - start + 1).drop_last() =~= d.take(i - start));
            assert(d.take(i - start + 1).last() == c);
        }
        acc = acc * 10 + dv;
        assert(all_digits(d.take(i - start + 1)));
        if acc > 2147483648 {
            proof {
                if all_digits(d) {
                    lemma_digits_grow(d, i - start + 1);
                    assert(digits_value(d) > 2147483648);
                    assert(!signed ==> all_digits(tok@));
                }
            }
            return None;
        }
        i += 1;
    }
    assert(d.take(n - start) =~= d);
    let v: i64 = if first == '-' { -acc } else { acc };
    if v < -2147483648 || v > 2147483647 {
        None
    } else {
        Some(v as i32)
    }
}

/// Reads the door costs of a header line; `None` if a token is not a cost.
pub fn parse_door_costs(header: &Vec<char>) -> (r: Option<Vec<i32>>)
    ensures
        match r {
            Some(v) => door_costs(header@) == Some(v@),
            None => door_costs(header@) is None,
        },
{
    let mut out: Vec<i32> = Vec::new();
    let toks = split_chars(header, ',');
    let ghost tv = views(toks@);
    let mut i: usize = 0;
    assert(tv.take(0) =~= Seq::<Seq<char>>::empty());
    while i < toks.len()
        invariant
            i <= toks.len(),
            tv == views(toks@),
            tv == split_on(header@, ','),
            tv.len() == toks.len(),
            all_costs(tv.take(i as int)) == Some(out@),
        decreases toks.len() - i,
    {
        assert(tv.take(i + 1).drop_last() =~= tv.take(i as int));
        assert(tv[i as int] == toks[i as int]@);
        match parse_cost(&toks[i]) {
            Some(v) => {
                out.push(v);
            },
            None => {
                proof {
                    assert(tv.take(i + 1).last() == tv[i as int]);
                    assert(all_costs(tv.take(i + 1)) is None);
                    lemma_costs_prefix(tv, i + 1);
                }
                return None;
            },
        }
        i += 1;
    }
    assert(tv.take(toks.len() as int) =~= tv);
    Some(out)
}

proof fn lemma_costs_prefix(toks: Seq<Seq<char>>, k: int)
    requires
        0 <= k <= toks.len(),
        all_costs(toks.take(k)) is None,
    ensures
        all_costs(toks) is None,
    decreases toks.len(),
{
    if k < toks.len() {
        assert(toks.drop_last().take(k) =~= toks.take(k));
        lemma_costs_prefix(toks.drop_last(), k);
    } else {
        assert(toks.take(k) =~= toks);
    }
}


/// No piece is longer than the text, and there is at most one more piece than characters.
pub proof fn lemma_split_sizes(s: Seq<char>, sep: char)
    ensures
        split_on(s, sep).len() <= s.len() + 1,
        forall|i: int| 0 <= i < split_on(s, sep).len() ==> (#[trigger] split_on(s, sep)[i]).len() <= s.len(),
    decreases s.len(),
{
    if s.len() > 0 {
        lemma_split_sizes(s.drop_last(), sep);
        lemma_split_nonempty(s.drop_last(), sep);
    }
}

} // verus!
