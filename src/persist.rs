use vstd::prelude::*;

use crate::text::{chars_of, push_str, string_of};

verus! {

/// Whether `c` is one of the ASCII digits.
pub open spec fn is_digit(c: char) -> bool {
    48 <= (c as u32) <= 57
}

/// The ASCII digit of a number below ten.
pub open spec fn digit_char(d: nat) -> char {
    ((d + 48) as u8) as char
}

/// The number written by a string of decimal digits.
pub open spec fn digits_value(d: Seq<char>) -> nat
    decreases d.len(),
{
    if d.len() == 0 {
        0
    } else {
        10 * digits_value(d.drop_last()) + ((d.last() as u32) - 48) as nat
    }
}

/// The shortest decimal text of `n`.
pub open spec fn decimal(n: nat) -> Seq<char>
    decreases n,
{
    if n < 10 {
        seq![digit_char(n)]
    } else {
        decimal(n / 10).push(digit_char(n % 10))
    }
}

/// A counter field: one or more digits whose value fits in an `isize`.
pub open spec fn is_count(d: Seq<char>) -> bool {
    &&& d.len() > 0
    &&& forall|k: int| 0 <= k < d.len() ==> is_digit(#[trigger] d[k])
    &&& digits_value(d) <= isize::MAX
}

/// `l` holds exactly two commas, at `i` and at `j`.
pub open spec fn comma_split(l: Seq<char>, i: int, j: int) -> bool {
    &&& 0 <= i < j < l.len()
    &&& l[i] == ','
    &&& l[j] == ','
    &&& forall|k: int| 0 <= k < l.len() && k != i && k != j ==> #[trigger] l[k] != ','
}

/// What a snapshot line records: its slug and its two counters, where the line is
/// `slug,hot,not` with no other comma and two counter fields.
pub open spec fn parse_record_spec(l: Seq<char>) -> Option<(Seq<char>, nat, nat)> {
    if exists|i: int, j: int| comma_split(l, i, j) {
        let (i, j) = choose|i: int, j: int| comma_split(l, i, j);
        let h = l.subrange(i + 1, j);
        let n = l.subrange(j + 1, l.len() as int);
        if is_count(h) && is_count(n) {
            Some((l.subrange(0, i), digits_value(h), digits_value(n)))
        } else {
            None
        }
    } else {
        None
    }
}

/// The snapshot line of one candidate.
pub open spec fn record_line(slug: Seq<char>, hot: nat, not: nat) -> Seq<char> {
    slug + seq![','] + decimal(hot) + seq![','] + decimal(not)
}

/// The decimal text of `n` is a string of digits worth `n`.
proof fn lemma_decimal(n: nat)
    ensures
        decimal(n).len() > 0,
        forall|k: int| 0 <= k < decimal(n).len() ==> is_digit(#[trigger] decimal(n)[k]),
        digits_value(decimal(n)) == n,
    decreases n,
{
    let c = digit_char(n % 10);
    assert((c as u32) - 48 == n % 10);
    if n >= 10 {
        lemma_decimal(n / 10);
        assert(decimal(n).drop_last() =~= decimal(n / 10));
        assert(decimal(n).last() == c);
    } else {
        assert(decimal(n).drop_last() =~= Seq::<char>::empty());
        assert(digits_value(Seq::<char>::empty()) == 0);
    }
}

/// Reading the snapshot line of a slug without commas gives back the slug and
/// both counters.
pub proof fn lemma_record_round_trip(slug: Seq<char>, hot: nat, not: nat)
    requires
        forall|k: int| 0 <= k < slug.len() ==> slug[k] != ',',
        hot <= isize::MAX,
        not <= isize::MAX,
    ensures
        parse_record_spec(record_line(slug, hot, not)) == Some((slug, hot, not)),
{
    lemma_decimal(hot);
    lemma_decimal(not);
    let l = record_line(slug, hot, not);
    let dh = decimal(hot);
    let dn = decimal(not);
    let i = slug.len() as int;
    let j = i + 1 + dh.len();
    assert(l.subrange(0, i) =~= slug);
    assert(l.subrange(i + 1, j) =~= dh);
    assert(l.subrange(j + 1, l.len() as int) =~= dn);
    assert forall|k: int| 0 <= k < l.len() && k != i && k != j implies #[trigger] l[k] != ',' by {
        if k < i {
            assert(l[k] == slug[k]);
        } else if k < j {
            assert(l[k] == dh[k - i - 1]);
            assert(is_digit(dh[k - i - 1]));
        } else {
            assert(l[k] == dn[k - j - 1]);
            assert(is_digit(dn[k - j - 1]));
        }
    }
    assert(comma_split(l, i, j));
    let (a, b) = choose|a: int, b: int| comma_split(l, a, b);
    assert(a == i && b == j);
}

/// One parsed snapshot line.
pub struct TallyRecord {
    pub slug: String,
    pub hot: usize,
    pub not: usize,
}

/// Relies on `ToString` for `usize`: the shortest decimal text of `n`.
#[verifier::external_body]
fn decimal_of(n: usize) -> (r: String)
    ensures
        r@ == decimal(n as nat),
{
    n.to_string()
}

/// The digits of a prefix are worth no more than the whole.
proof fn lemma_prefix_value(d: Seq<char>, k: int)
    requires
        0 <= k <= d.len(),
    ensures
        digits_value(d.subrange(0, k)) <= digits_value(d),
    decreases d.len(),
{
    if k < d.len() {
        assert(d.drop_last().subrange(0, k) =~= d.subrange(0, k));
        lemma_prefix_value(d.drop_last(), k);
    } else {
        assert(d.subrange(0, k) =~= d);
    }
}

/// The value of the counter field `v[a..b]`, or `None` where it is no counter.
fn parse_count(v: &Vec<char>, a: usize, b: usize) -> (r: Option<usize>)
    requires
        a <= b <= v@.len(),
    ensures
        match r {
            Some(x) => is_count(v@.subrange(a as int, b as int)) && x == digits_value(
                v@.subrange(a as int, b as int),
            ),
            None => !is_count(v@.subrange(a as int, b as int)),
        },
{
    let ghost d = v@.subrange(a as int, b as int);
    if a == b {
        return None;
    }
    let mut x: usize = 0;
    let mut k: usize = a;
    while k < b
        invariant
            a <= k <= b <= v@.len(),
            d == v@.subrange(a as int, b as int),
            forall|m: int| 0 <= m < k - a ==> is_digit(#[trigger] d[m]),
            x == digits_value(d.subrange(0, k - a)),
            x <= isize::MAX,
        decreases b - k,
    {
        let c = v[k];
        if !((c as u32) >= 48 && (c as u32) <= 57) {
            assert(!is_digit(d[k - a]));
            return None;
        }
        let digit = ((c as u32) - 48) as usize;
        proof {
            assert(d.subrange(0, k - a + 1).drop_last() =~= d.subrange(0, k - a));
            assert(d.subrange(0, k - a + 1).last() == c);
        }
        if x > (isize::MAX as usize - digit) / 10 {
            proof {
                lemma_prefix_value(d, k - a + 1);
            }
            return None;
        }
        x = x * 10 + digit;
        k = k + 1;
    }
    assert(d.subrange(0, b - a) =~= d);
    Some(x)
}

/// Reads one snapshot line `slug,hot,not`.
pub fn parse_record(line: &str) -> (r: Option<TallyRecord>)
    ensures
        match r {
            Some(t) => parse_record_spec(line@) == Some((t.slug@, t.hot as nat, t.not as nat)),
            None => parse_record_spec(line@) is None,
        },
{
    let v = chars_of(line);
    let ghost l = line@;
    let n = v.len();
    let mut i: usize = 0;
    while i < n && v[i] != ','
        invariant
            i <= n == l.len(),
            v@ == l,
            forall|k: int| 0 <= k < i ==> l[k] != ',',
        decreases n - i,
    {
        i = i + 1;
    }
    if i == n {
        return None;
    }
    let mut j: usize = i + 1;
    while j < n && v[j] != ','
        invariant
            i < j <= n == l.len(),
            v@ == l,
            forall|k: int| i < k < j ==> l[k] != ',',
        decreases n - j,
    {
        j = j + 1;
    }
    if j == n {
        return None;
    }
    let mut e: usize = j + 1;
    while e < n && v[e] != ','
        invariant
            j < e <= n == l.len(),
            v@ == l,
            forall|k: int| j < k < e ==> l[k] != ',',
        decreases n - e,
    {
        e = e + 1;
    }
    if e < n {
        proof {
            if exists|a: int, b: int| comma_split(l, a, b) {
                let (a, b) = choose|a: int, b: int| comma_split(l, a, b);
                assert(l[i as int] == ',' && l[j as int] == ',' && l[e as int] == ',');
            }
        }
        return None;
    }
    assert(comma_split(l, i as int, j as int));
    proof {
        let (a, b) = choose|a: int, b: int| comma_split(l, a, b);
        assert(a == i && b == j);
    }
    let hot = parse_count(&v, i + 1, j);
    let not = parse_count(&v, j + 1, n);
    match (hot, not) {
        (Some(h), Some(t)) => Some(TallyRecord { slug: string_of(&v, 0, i), hot: h, not: t }),
        _ => None,
    }
}

/// Writes the snapshot line of one candidate.
pub fn render_record(slug: &str, hot: usize, not: usize) -> (r: String)
    ensures
        r@ == record_line(slug@, hot as nat, not as nat),
{
    proof {
        reveal_strlit(",");
        assert(","@ =~= seq![',']);
    }
    let mut out = slug.to_owned();
    push_str(&mut out, ",");
    let h = decimal_of(hot);
    push_str(&mut out, h.as_str());
    push_str(&mut out, ",");
    let t = decimal_of(not);
    push_str(&mut out, t.as_str());
    out
}

} // verus!
