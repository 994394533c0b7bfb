//! Text encodings used by the store and the cache.
use vstd::prelude::*;

verus! {

/// The lowercase hexadecimal digit of a nibble.
pub open spec fn hex_digit(n: u8) -> char {
    if n < 10 {
        (48 + n) as char
    } else {
        (87 + n) as char
    }
}

/// Two lowercase hexadecimal digits per byte, most significant first.
pub open spec fn hex_of(b: Seq<u8>) -> Seq<char>
    decreases b.len(),
{
    if b.len() == 0 {
        Seq::empty()
    } else {
        hex_of(b.drop_last()) + seq![hex_digit(b.last() / 16), hex_digit(b.last() % 16)]
    }
}

} // verus!

verus! {

/// The decimal digit of `d < 10`.
pub open spec fn digit_char(d: nat) -> char {
    (48 + d) as char
}

/// The decimal representation of `n`, without leading zeros.
pub open spec fn decimal(n: nat) -> Seq<char>
    decreases n,
{
    if n < 10 {
        seq![digit_char(n)]
    } else {
        decimal(n / 10) + seq![digit_char(n % 10)]
    }
}

/// The concatenation of `f` applied to each element of `s`, in order.
pub open spec fn join_map<T, U>(s: Seq<T>, f: spec_fn(T) -> Seq<U>) -> Seq<U>
    decreases s.len(),
{
    if s.len() == 0 {
        Seq::empty()
    } else {
        join_map(s.drop_last(), f) + f(s.last())
    }
}

/// A string, prefixed by its length so that concatenations stay unambiguous.
pub open spec fn enc_str(s: Seq<char>) -> Seq<char> {
    decimal(s.len()) + seq![':'] + s
}

/// A list: its length, then its encoded elements.
pub open spec fn enc_list<T>(s: Seq<T>, f: spec_fn(T) -> Seq<char>) -> Seq<char> {
    decimal(s.len()) + seq!['['] + join_map(s, f)
}

pub proof fn lemma_join_map_step<T, U>(s: Seq<T>, i: int, f: spec_fn(T) -> Seq<U>)
    requires
        0 <= i < s.len(),
    ensures
        join_map(s.subrange(0, i + 1), f) == join_map(s.subrange(0, i), f) + f(s[i]),
{
    assert(s.subrange(0, i + 1).drop_last() =~= s.subrange(0, i));
}

fn digit_str(d: u64) -> (r: &'static str)
    requires
        d < 10,
    ensures
        r@ == seq![digit_char(d as nat)],
{
    proof {
        reveal_strlit("0");
        reveal_strlit("1");
        reveal_strlit("2");
        reveal_strlit("3");
        reveal_strlit("4");
        reveal_strlit("5");
        reveal_strlit("6");
        reveal_strlit("7");
        reveal_strlit("8");
        reveal_strlit("9");
    }
    if d == 0 {
        "0"
    } else if d == 1 {
        "1"
    } else if d == 2 {
        "2"
    } else if d == 3 {
        "3"
    } else if d == 4 {
        "4"
    } else if d == 5 {
        "5"
    } else if d == 6 {
        "6"
    } else if d == 7 {
        "7"
    } else if d == 8 {
        "8"
    } else {
        "9"
    }
}

/// Append the decimal representation of `n`.
pub fn push_decimal(t: &mut String, n: u64)
    ensures
        final(t)@ == old(t)@ + decimal(n as nat),
    decreases n,
{
    if n >= 10 {
        push_decimal(t, n / 10);
    }
    let d = digit_str(n % 10);
    t.append(d);
    proof {
        if n >= 10 {
            assert(final(t)@ =~= old(t)@ + decimal(n as nat));
        } else {
            assert(final(t)@ =~= old(t)@ + decimal(n as nat));
        }
    }
}

/// The decimal representation of `n`.
pub fn decimal_string(n: u64) -> (r: String)
    ensures
        r@ == decimal(n as nat),
{
    let mut t = String::new();
    push_decimal(&mut t, n);
    assert(t@ =~= decimal(n as nat));
    t
}

/// Append `s` prefixed by its length.
pub fn push_enc_str(t: &mut String, s: &str)
    ensures
        final(t)@ == old(t)@ + enc_str(s@),
{
    let n = s.unicode_len();
    push_decimal(t, n as u64);
    t.append(":");
    t.append(s);
    proof {
        reveal_strlit(":");
        assert(final(t)@ =~= old(t)@ + enc_str(s@));
    }
}

/// Append the length prefix of a list of `n` elements.
pub fn push_list_head(t: &mut String, n: usize)
    ensures
        final(t)@ == old(t)@ + decimal(n as nat) + seq!['['],
{
    push_decimal(t, n as u64);
    t.append("[");
    proof {
        reveal_strlit("[");
    }
}

} // verus!

verus! {

/// Whether `a` and `b` hold the same characters.
pub fn same_text(a: &str, b: &str) -> (r: bool)
    ensures
        r == (a@ == b@),
{
    let n = a.unicode_len();
    if n != b.unicode_len() {
        return false;
    }
    let mut i: usize = 0;
    while i < n
        invariant
            n == a@.len(),
            n == b@.len(),
            0 <= i <= n,
            forall|j: int| 0 <= j < i ==> a@[j] == b@[j],
        decreases n - i,
    {
        if a.get_char(i) != b.get_char(i) {
            return false;
        }
        i = i + 1;
    }
    assert(a@ =~= b@);
    true
}

/// `p` occurs in `s` at position `i`.
pub open spec fn occurs_at(s: Seq<char>, p: Seq<char>, i: int) -> bool {
    0 <= i && i + p.len() <= s.len() && s.subrange(i, i + p.len()) == p
}

/// The last position where `p` occurs in `s`.
#[verifier::opaque]
pub open spec fn last_occurrence(s: Seq<char>, p: Seq<char>) -> Option<int> {
    if exists|i: int| occurs_at(s, p, i) {
        Some(choose|i: int| occurs_at(s, p, i) && forall|j: int| i < j ==> !occurs_at(s, p, j))
    } else {
        None
    }
}

fn occurs_at_exec(s: &str, p: &str, i: usize) -> (r: bool)
    requires
        i + p@.len() <= s@.len(),
    ensures
        r == occurs_at(s@, p@, i as int),
{
    let m = p.unicode_len();
    let n = s.unicode_len();
    let mut k: usize = 0;
    while k < m
        invariant
            m == p@.len(),
            n == s@.len(),
            i + m <= s@.len(),
            0 <= k <= m,
            forall|j: int| 0 <= j < k ==> s@[i + j] == p@[j],
        decreases m - k,
    {
        if s.get_char(i + k) != p.get_char(k) {
            assert(s@.subrange(i as int, i + m)[k as int] != p@[k as int]);
            return false;
        }
        k = k + 1;
    }
    assert(s@.subrange(i as int, i + m) =~= p@);
    true
}

/// The last position where `p` occurs in `s`, as `str::rfind` gives it.
pub fn rfind(s: &str, p: &str) -> (r: Option<usize>)
    ensures
        match last_occurrence(s@, p@) {
            Some(i) => r is Some && r->0 as int == i,
            None => r is None,
        },
        r is Some ==> occurs_at(s@, p@, r->0 as int),
{
    reveal(last_occurrence);
    let n = s.unicode_len();
    let m = p.unicode_len();
    if m > n {
        return None;
    }
    let mut i: usize = n - m;
    loop
        invariant
            n == s@.len(),
            m == p@.len(),
            m <= n,
            0 <= i <= n - m,
            forall|j: int| i < j ==> !occurs_at(s@, p@, j),
        decreases i,
    {
        if occurs_at_exec(s, p, i) {
            proof {
                reveal(last_occurrence);
                let c = choose|x: int| occurs_at(s@, p@, x) && forall|j: int| x < j ==> !occurs_at(s@, p@, j);
                assert(occurs_at(s@, p@, i as int));
                if c < i {
                    assert(!occurs_at(s@, p@, i as int));
                } else if c > i {
                    assert(!occurs_at(s@, p@, c));
                }
            }
            return Some(i);
        }
        if i == 0 {
            proof {
                reveal(last_occurrence);
                assert forall|j: int| !occurs_at(s@, p@, j) by {
                    if j == 0 {
                        assert(!occurs_at(s@, p@, i as int));
                    }
                }
            }
            return None;
        }
        i = i - 1;
    }
}

/// The value of a string of decimal digits.
pub open spec fn digits_value(s: Seq<char>) -> nat
    decreases s.len(),
{
    if s.len() == 0 {
        0
    } else {
        digits_value(s.drop_last()) * 10 + ((s.last() as nat) - 48) as nat
    }
}

pub open spec fn is_digit(c: char) -> bool {
    '0' <= c && c <= '9'
}

/// A non-empty run of decimal digits.
pub open spec fn all_digits(s: Seq<char>) -> bool {
    s.len() > 0 && forall|i: int| 0 <= i < s.len() ==> is_digit(#[trigger] s[i])
}

/// What `str::parse::<u32>` gives: an optional `+`, then decimal digits
/// whose value fits.
#[verifier::opaque]
pub open spec fn parse_u32(s: Seq<char>) -> Option<u32> {
    let d = if s.len() > 0 && s[0] == '+' {
        s.subrange(1, s.len() as int)
    } else {
        s
    };
    if all_digits(d) && digits_value(d) <= u32::MAX {
        Some(digits_value(d) as u32)
    } else {
        None
    }
}

proof fn lemma_digits_value_mono(s: Seq<char>, i: int)
    requires
        0 <= i <= s.len(),
        forall|j: int| 0 <= j < s.len() ==> is_digit(#[trigger] s[j]),
    ensures
        digits_value(s.subrange(0, i)) <= digits_value(s),
    decreases s.len() - i,
{
    if i < s.len() {
        lemma_digits_value_mono(s, i + 1);
        assert(s.subrange(0, i + 1).drop_last() =~= s.subrange(0, i));
    } else {
        assert(s.subrange(0, i) =~= s);
    }
}

/// Parse a decimal `u32` as `str::parse` does.
pub fn parse_u32_exec(s: &str) -> (r: Option<u32>)
    ensures
        r == parse_u32(s@),
{
    reveal(parse_u32);
    let n = s.unicode_len();
    let mut start: usize = 0;
    if n > 0 && s.get_char(0) == '+' {
        start = 1;
    }
    let ghost d = if s@.len() > 0 && s@[0] == '+' {
        s@.subrange(1, s@.len() as int)
    } else {
        s@
    };
    assert(d =~= s@.subrange(start as int, n as int));
    if start >= n {
        return None;
    }
    let mut v: u64 = 0;
    let mut i: usize = start;
    while i < n
        invariant
            n == s@.len(),
            start <= i <= n,
            d == s@.subrange(start as int, n as int),
            d == (if s@.len() > 0 && s@[0] == '+' {
                s@.subrange(1, s@.len() as int)
            } else {
                s@
            }),
            v == digits_value(s@.subrange(start as int, i as int)),
            v <= u32::MAX,
            forall|j: int| start <= j < i ==> is_digit(#[trigger] s@[j]),
        decreases n - i,
    {
        let c = s.get_char(i);
        if !('0' <= c && c <= '9') {
            proof {
                reveal(parse_u32);
                assert(d[i - start] == s@[i as int]);
                assert(!is_digit(d[i - start]));
            }
            return None;
        }
        proof {
            assert(s@.subrange(start as int, i + 1).drop_last() =~= s@.subrange(start as int, i as int));
        }
        let nv = v * 10 + ((c as u32 - 48) as u64);
        if nv > u32::MAX as u64 {
            proof {
                reveal(parse_u32);
                assert(digits_value(s@.subrange(start as int, i + 1)) > u32::MAX);
                if all_digits(d) {
                    lemma_digits_value_mono(d, i + 1 - start);
                    assert(d.subrange(0, i + 1 - start) =~= s@.subrange(start as int, i + 1));
                }
            }
            return None;
        }
        v = nv;
        i = i + 1;
    }
    proof {
        reveal(parse_u32);
        assert(s@.subrange(start as int, n as int) =~= d);
        assert forall|j: int| 0 <= j < d.len() implies is_digit(#[trigger] d[j]) by {
            assert(d[j] == s@[start + j]);
        }
    }
    Some(v as u32)
}

} // verus!

verus! {

/// Lexicographic order on character sequences.
pub open spec fn lex_le(a: Seq<char>, b: Seq<char>) -> bool
    decreases a.len(),
{
    if a.len() == 0 {
        true
    } else if b.len() == 0 {
        false
    } else if a[0] != b[0] {
        a[0] < b[0]
    } else {
        lex_le(a.drop_first(), b.drop_first())
    }
}

pub open spec fn lex_order() -> spec_fn(Seq<char>, Seq<char>) -> bool {
    |a: Seq<char>, b: Seq<char>| lex_le(a, b)
}

proof fn lemma_lex_reflexive(a: Seq<char>)
    ensures
        lex_le(a, a),
    decreases a.len(),
{
    if a.len() > 0 {
        lemma_lex_reflexive(a.drop_first());
    }
}

proof fn lemma_lex_antisymmetric(a: Seq<char>, b: Seq<char>)
    requires
        lex_le(a, b),
        lex_le(b, a),
    ensures
        a == b,
    decreases a.len(),
{
    if a.len() > 0 && b.len() > 0 {
        lemma_lex_antisymmetric(a.drop_first(), b.drop_first());
        assert(a =~= seq![a[0]] + a.drop_first());
        assert(b =~= seq![b[0]] + b.drop_first());
    } else {
        assert(a.len() == 0 && b.len() == 0);
        assert(a =~= b);
    }
}

proof fn lemma_lex_transitive(a: Seq<char>, b: Seq<char>, c: Seq<char>)
    requires
        lex_le(a, b),
        lex_le(b, c),
    ensures
        lex_le(a, c),
    decreases a.len(),
{
    if a.len() > 0 && b.len() > 0 && c.len() > 0 {
        if a[0] == b[0] && b[0] == c[0] {
            lemma_lex_transitive(a.drop_first(), b.drop_first(), c.drop_first());
        }
    }
}

proof fn lemma_lex_connected(a: Seq<char>, b: Seq<char>)
    ensures
        lex_le(a, b) || lex_le(b, a),
    decreases a.len(),
{
    if a.len() > 0 && b.len() > 0 && a[0] == b[0] {
        lemma_lex_connected(a.drop_first(), b.drop_first());
    }
}

/// The lexicographic order is total.
pub proof fn lemma_lex_total()
    ensures
        vstd::relations::total_ordering(lex_order()),
{
    assert forall|a: Seq<char>| #[trigger] lex_order()(a, a) by {
        lemma_lex_reflexive(a);
    }
    assert forall|a: Seq<char>, b: Seq<char>| #[trigger] lex_order()(a, b) && #[trigger] lex_order()(b, a) implies a == b by {
        lemma_lex_antisymmetric(a, b);
    }
    assert forall|a: Seq<char>, b: Seq<char>, c: Seq<char>|
        #[trigger] lex_order()(a, b) && #[trigger] lex_order()(b, c) implies lex_order()(a, c) by {
        lemma_lex_transitive(a, b, c);
    }
    assert forall|a: Seq<char>, b: Seq<char>| #[trigger] lex_order()(a, b) || #[trigger] lex_order()(b, a) by {
        lemma_lex_connected(a, b);
    }
}

/// Whether `a` comes before `b`, or equals it, in lexicographic order.
pub fn lex_le_exec(a: &str, b: &str) -> (r: bool)
    ensures
        r == lex_le(a@, b@),
{
    let n = a.unicode_len();
    let m = b.unicode_len();
    let mut i: usize = 0;
    assert(a@.subrange(0, n as int) =~= a@);
    assert(b@.subrange(0, m as int) =~= b@);
    while i < n && i < m
        invariant
            n == a@.len(),
            m == b@.len(),
            0 <= i <= n,
            i <= m,
            lex_le(a@, b@) == lex_le(a@.subrange(i as int, n as int), b@.subrange(i as int, m as int)),
        decreases n - i,
    {
        let x = a.get_char(i);
        let y = b.get_char(i);
        let ghost sa = a@.subrange(i as int, n as int);
        let ghost sb = b@.subrange(i as int, m as int);
        assert(sa[0] == x && sb[0] == y);
        if x != y {
            return x < y;
        }
        assert(sa.drop_first() =~= a@.subrange(i + 1, n as int));
        assert(sb.drop_first() =~= b@.subrange(i + 1, m as int));
        i = i + 1;
    }
    i == n
}

/// The views of a list of strings.
pub open spec fn views(v: Seq<String>) -> Seq<Seq<char>> {
    v.map_values(|s: String| s@)
}

/// Insert `s` into the sorted list `v`, keeping it sorted.
fn insert_sorted(v: &mut Vec<String>, s: String)
    requires
        vstd::relations::sorted_by(views(old(v)@), lex_order()),
    ensures
        vstd::relations::sorted_by(views(final(v)@), lex_order()),
        views(final(v)@).to_multiset() == views(old(v)@).to_multiset().insert(s@),
{
    proof {
        lemma_lex_total();
    }
    let ghost old_views = views(v@);
    let mut p: usize = 0;
    while p < v.len() && lex_le_exec(v[p].as_str(), s.as_str())
        invariant
            0 <= p <= v@.len(),
            views(v@) == old_views,
            vstd::relations::total_ordering(lex_order()),
            forall|q: int| 0 <= q < p ==> lex_le(#[trigger] old_views[q], s@),
        decreases v@.len() - p,
    {
        p = p + 1;
    }
    let ghost sv = s@;
    v.insert(p, s);
    proof {
        let nv = views(v@);
        assert(nv =~= old_views.insert(p as int, sv));
        vstd::seq_lib::to_multiset_insert(old_views, p as int, sv);
        assert forall|i: int, j: int| 0 <= i < j < nv.len() implies #[trigger] lex_order()(nv[i], nv[j]) by {
            if j < p {
                assert(lex_order()(old_views[i], old_views[j]));
            } else if j == p {
                assert(lex_le(old_views[i], sv));
            } else if i < p {
                // nv[i] <= s < old[p] <= nv[j]
                assert(lex_le(old_views[i], sv));
                lemma_lex_connected(sv, old_views[p as int]);
                if j - 1 > p {
                    assert(lex_order()(old_views[p as int], old_views[j - 1]));
                    lemma_lex_transitive(sv, old_views[p as int], old_views[j - 1]);
                }
                lemma_lex_transitive(old_views[i], sv, old_views[j - 1]);
            } else if i == p {
                lemma_lex_connected(sv, old_views[p as int]);
                if j - 1 > p {
                    assert(lex_order()(old_views[p as int], old_views[j - 1]));
                    lemma_lex_transitive(sv, old_views[p as int], old_views[j - 1]);
                }
            } else {
                assert(lex_order()(old_views[i - 1], old_views[j - 1]));
            }
        }
    }
}

/// The strings of `v` sorted lexicographically.
pub fn sort_strings(v: Vec<String>) -> (r: Vec<String>)
    ensures
        views(r@) == views(v@).sort_by(lex_order()),
{
    proof {
        lemma_lex_total();
        views(v@).lemma_sort_by_ensures(lex_order());
    }
    let ghost orig = views(v@);
    let n = v.len();
    let mut rest = v;
    let mut out: Vec<String> = Vec::new();
    let mut i: usize = 0;
    assert(orig.subrange(0, n as int) =~= orig);
    assert(views(out@) =~= orig.subrange(0, 0));
    while i < n
        invariant
            n == orig.len(),
            0 <= i <= n,
            views(rest@) == orig.subrange(i as int, n as int),
            vstd::relations::sorted_by(views(out@), lex_order()),
            views(out@).to_multiset() == orig.subrange(0, i as int).to_multiset(),
        decreases n - i,
    {
        assert(views(rest@).len() == rest@.len());
        assert(views(rest@)[0] == rest@[0]@);
        assert(views(rest@)[0] == orig[i as int]);
        let ghost before = rest@;
        let s = rest.remove(0);
        assert forall|k: int| 0 <= k < rest@.len() implies #[trigger] views(rest@)[k] == views(before)[k + 1] by {
            assert(rest@[k] == before[k + 1]);
        }
        assert(s@ == orig[i as int]);
        insert_sorted(&mut out, s);
        proof {
            assert(orig.subrange(0, i + 1) =~= orig.subrange(0, i as int).push(orig[i as int]));
            vstd::seq_lib::to_multiset_build(orig.subrange(0, i as int), orig[i as int]);
        }
        i = i + 1;
        assert(views(rest@) =~= orig.subrange(i as int, n as int));
    }
    proof {
        assert(orig.subrange(0, n as int) =~= orig);
        vstd::seq_lib::lemma_sorted_unique(views(out@), orig.sort_by(lex_order()), lex_order());
    }
    out
}

} // verus!
