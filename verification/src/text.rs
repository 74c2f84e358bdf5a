//! Character-level helpers shared by the parsers, the trie and the builtins.

use vstd::prelude::*;

verus! {

/// The characters of a string slice, in order.
pub fn str_chars(s: &str) -> (res: Vec<char>)
    ensures
        res@ == s@,
{
    let mut res: Vec<char> = Vec::new();
    for c in it: s.chars()
        invariant
            res@ == it.history(),
    {
        res.push(c);
    }
    res
}

/// `String::push`: appends one character.
#[verifier::external_body]
pub(crate) fn push_char(s: &mut String, c: char)
    ensures
        final(s)@ == old(s)@.push(c),
{
    s.push(c);
}

/// `char::from_u32`: the character whose scalar value is `code`, if there is one.
#[verifier::external_body]
pub(crate) fn char_from_code(code: u32) -> (r: Option<char>)
    ensures
        r matches Some(c) ==> c as u32 == code,
        r is None ==> forall|c: char| #[trigger] scalar(c) != code,
{
    char::from_u32(code)
}

/// The scalar value of a character, as a spec function (a trigger for quantifiers).
pub open spec fn scalar(c: char) -> u32 {
    c as u32
}

/// A string holding exactly the given characters.
pub fn string_from_chars(cs: &[char]) -> (res: String)
    ensures
        res@ == cs@,
{
    let mut res = String::new();
    let mut i: usize = 0;
    while i < cs.len()
        invariant
            i <= cs@.len(),
            res@ == cs@.take(i as int),
        decreases cs@.len() - i,
    {
        push_char(&mut res, cs[i]);
        i = i + 1;
        assert(cs@.take(i as int) == cs@.take(i - 1).push(cs@[i - 1]));
    }
    assert(cs@.take(cs@.len() as int) == cs@);
    res
}

/// `p` is a prefix of `w`.
pub open spec fn has_prefix(w: Seq<char>, p: Seq<char>) -> bool {
    p.len() <= w.len() && w.take(p.len() as int) == p
}

/// Strict lexicographic order on character sequences, by scalar value; the order
/// of `str`'s `Ord` (UTF-8 bytes compare in the same order as scalar values).
pub open spec fn seq_less(a: Seq<char>, b: Seq<char>) -> bool
    decreases a.len(),
{
    if b.len() == 0 {
        false
    } else if a.len() == 0 {
        true
    } else if a[0] != b[0] {
        (a[0] as u32) < (b[0] as u32)
    } else {
        seq_less(a.drop_first(), b.drop_first())
    }
}

/// The order is irreflexive.
pub proof fn lemma_seq_less_irreflexive(a: Seq<char>)
    ensures
        !seq_less(a, a),
    decreases a.len(),
{
    if a.len() > 0 {
        lemma_seq_less_irreflexive(a.drop_first());
    }
}

/// The order is total.
pub proof fn lemma_seq_less_total(a: Seq<char>, b: Seq<char>)
    ensures
        a == b || seq_less(a, b) || seq_less(b, a),
    decreases a.len(),
{
    if a.len() > 0 && b.len() > 0 && a[0] == b[0] {
        lemma_seq_less_total(a.drop_first(), b.drop_first());
        if a.drop_first() == b.drop_first() {
            assert(a == seq![a[0]] + a.drop_first());
            assert(b == seq![b[0]] + b.drop_first());
        }
    } else if a.len() == 0 && b.len() == 0 {
        assert(a == b);
    } else if a.len() > 0 && b.len() > 0 {
        lemma_scalar_injective(a[0], b[0]);
    }
}

/// Distinct characters have distinct scalar values.
pub proof fn lemma_scalar_injective(c: char, d: char)
    ensures
        (c as u32 == d as u32) ==> c == d,
{
    vstd::utf8::char_u32_cast(c, c as u32);
    vstd::utf8::char_u32_cast(d, d as u32);
}

/// The order is transitive.
pub proof fn lemma_seq_less_transitive(a: Seq<char>, b: Seq<char>, c: Seq<char>)
    requires
        seq_less(a, b),
        seq_less(b, c),
    ensures
        seq_less(a, c),
    decreases a.len(),
{
    if a.len() > 0 && a[0] == b[0] && b[0] == c[0] {
        lemma_seq_less_transitive(a.drop_first(), b.drop_first(), c.drop_first());
    }
}

/// Compares two character slices in `seq_less` order.
pub fn chars_less(a: &[char], b: &[char]) -> (r: bool)
    ensures
        r == seq_less(a@, b@),
{
    let mut i: usize = 0;
    assert(a@.skip(0) == a@ && b@.skip(0) == b@);
    while i < a.len() && i < b.len() && a[i] == b[i]
        invariant
            i <= a@.len(),
            i <= b@.len(),
            seq_less(a@, b@) == seq_less(a@.skip(i as int), b@.skip(i as int)),
        decreases a@.len() - i,
    {
        assert(a@.skip(i as int).drop_first() == a@.skip(i + 1));
        assert(b@.skip(i as int).drop_first() == b@.skip(i + 1));
        i = i + 1;
    }
    if i == b.len() {
        false
    } else if i == a.len() {
        true
    } else {
        char_code(a[i]) < char_code(b[i])
    }
}

/// Equality of two character slices.
pub fn chars_eq(a: &[char], b: &[char]) -> (r: bool)
    ensures
        r == (a@ == b@),
{
    if a.len() != b.len() {
        return false;
    }
    let mut i: usize = 0;
    while i < a.len()
        invariant
            a@.len() == b@.len(),
            i <= a@.len(),
            forall|j: int| 0 <= j < i ==> a@[j] == b@[j],
        decreases a@.len() - i,
    {
        if a[i] != b[i] {
            return false;
        }
        i = i + 1;
    }
    assert(a@ == b@);
    true
}

/// Equality of two string slices, by their characters.
pub fn str_eq(a: &str, b: &str) -> (r: bool)
    ensures
        r == (a@ == b@),
{
    let ca = str_chars(a);
    let cb = str_chars(b);
    chars_eq(ca.as_slice(), cb.as_slice())
}

/// The scalar value of a character.
pub fn char_code(c: char) -> (r: u32)
    ensures
        r == c as u32,
{
    c as u32
}


/// The character sequences held by a vector of character vectors.
pub open spec fn views(v: Seq<Vec<char>>) -> Seq<Seq<char>> {
    v.map_values(|x: Vec<char>| x@)
}

/// The character sequences held by a vector of strings.
pub open spec fn string_views(v: Seq<String>) -> Seq<Seq<char>> {
    v.map_values(|x: String| x@)
}

/// Strictly increasing in `seq_less` order: sorted, with no repeats.
pub open spec fn strictly_sorted(s: Seq<Seq<char>>) -> bool {
    forall|i: int, j: int| 0 <= i < j < s.len() ==> seq_less(#[trigger] s[i], #[trigger] s[j])
}

/// Adds `x` to a strictly sorted vector, keeping it strictly sorted; nothing is added
/// when `x` is already there.
pub fn insert_sorted(v: &mut Vec<Vec<char>>, x: Vec<char>)
    requires
        strictly_sorted(views(old(v)@)),
    ensures
        strictly_sorted(views(final(v)@)),
        forall|t: Seq<char>|
            views(final(v)@).contains(t) <==> (views(old(v)@).contains(t) || t == x@),
{
    let ghost old_v = views(v@);
    let mut j: usize = 0;
    while j < v.len() && chars_less(v[j].as_slice(), x.as_slice())
        invariant
            j <= v@.len(),
            views(v@) == old_v,
            strictly_sorted(old_v),
            forall|i: int| 0 <= i < j ==> seq_less(#[trigger] old_v[i], x@),
        decreases v@.len() - j,
    {
        j = j + 1;
    }
    if j < v.len() && chars_eq(v[j].as_slice(), x.as_slice()) {
        assert(old_v[j as int] == x@);
        return;
    }
    proof {
        if j < v@.len() {
            lemma_seq_less_total(old_v[j as int], x@);
        }
    }
    let ghost xv = x@;
    v.insert(j, x);
    proof {
        let nv = views(v@);
        assert(nv == old_v.insert(j as int, xv));
        assert forall|a: int, b: int| 0 <= a < b < nv.len() implies seq_less(
            #[trigger] nv[a],
            #[trigger] nv[b],
        ) by {
            if b < j {
            } else if b == j {
            } else if a < j {
                lemma_seq_less_transitive(nv[a], xv, old_v[j as int]);
                if b > j + 1 {
                    lemma_seq_less_transitive(nv[a], old_v[j as int], nv[b]);
                }
            } else if a == j {
                if b > j + 1 {
                    lemma_seq_less_transitive(xv, old_v[j as int], nv[b]);
                }
            } else {
            }
        }
        assert forall|t: Seq<char>| nv.contains(t) <==> (old_v.contains(t) || t == xv) by {
            if nv.contains(t) {
                let i = choose|i: int| 0 <= i < nv.len() && nv[i] == t;
                if i < j {
                    assert(old_v[i] == t);
                } else if i > j {
                    assert(old_v[i - 1] == t);
                }
            }
            if old_v.contains(t) {
                let i = choose|i: int| 0 <= i < old_v.len() && old_v[i] == t;
                if i < j {
                    assert(nv[i] == t);
                } else {
                    assert(nv[i + 1] == t);
                }
            }
            if t == xv {
                assert(nv[j as int] == t);
            }
        }
    }
}

/// The sequences of `list` with `sep` between each two of them.
pub open spec fn seq_join(list: Seq<Seq<char>>, sep: Seq<char>) -> Seq<char>
    decreases list.len(),
{
    if list.len() == 0 {
        Seq::empty()
    } else if list.len() == 1 {
        list[0]
    } else {
        seq_join(list.drop_last(), sep) + sep + list.last()
    }
}

/// Joining splits as the first element, the separator, and the join of the rest.
pub proof fn lemma_seq_join_first(list: Seq<Seq<char>>, sep: Seq<char>)
    requires
        list.len() >= 2,
    ensures
        seq_join(list, sep) == list[0] + sep + seq_join(list.drop_first(), sep),
    decreases list.len(),
{
    if list.len() == 2 {
        assert(list.drop_last().len() == 1);
        assert(list.drop_first().len() == 1);
        assert(seq_join(list.drop_first(), sep) == list[1]);
        assert(seq_join(list.drop_last(), sep) == list[0]);
    } else {
        lemma_seq_join_first(list.drop_last(), sep);
        assert(list.drop_last().drop_first() == list.drop_first().drop_last());
        assert(list.drop_first().last() == list.last());
        assert(list.drop_last()[0] == list[0]);
    }
}

/// The string slices of `list` with `sep` between each two of them.
pub fn join_strs(list: &[&str], sep: &str) -> (res: String)
    ensures
        res@ == seq_join(list@.map_values(|a: &str| a@), sep@),
{
    let ghost views = list@.map_values(|a: &str| a@);
    let mut res = String::new();
    let mut i: usize = 0;
    assert(views.take(0) == Seq::<Seq<char>>::empty());
    while i < list.len()
        invariant
            i <= list@.len(),
            views == list@.map_values(|a: &str| a@),
            res@ == seq_join(views.take(i as int), sep@),
        decreases list@.len() - i,
    {
        let ghost before = res@;
        if i > 0 {
            res.append(sep);
        }
        res.append(list[i]);
        proof {
            let t = views.take(i + 1);
            assert(t.drop_last() == views.take(i as int));
            assert(t.last() == list@[i as int]@);
            if i == 0 {
                assert(t.len() == 1);
                assert(before == Seq::<char>::empty());
                assert(res@ == list@[0]@);
            }
        }
        i = i + 1;
    }
    assert(views.take(list@.len() as int) == views);
    res
}

/// The digit character for `d` (below ten).
pub open spec fn digit_char(d: nat) -> char {
    (48 + d) as char
}

/// The decimal numeral of `n`, without leading zeros.
pub open spec fn decimal(n: nat) -> Seq<char>
    decreases n,
{
    if n < 10 {
        seq![digit_char(n)]
    } else {
        decimal(n / 10).push(digit_char(n % 10))
    }
}

/// The numeral of `n` is made of decimal digits, has value `n`, and begins with `0` only
/// when it is `0` itself.
pub proof fn lemma_decimal_value(n: nat)
    ensures
        decimal(n).len() > 0,
        all_digits(decimal(n)),
        digits_value(decimal(n)) == n,
        decimal(n)[0] == '0' ==> n == 0,
    decreases n,
{
    if n < 10 {
        assert(decimal(n).drop_last() == Seq::<char>::empty());
        assert(digit_char(n) as u32 == 48 + n);
        assert(decimal(n).last() == digit_char(n));
        assert(digits_value(decimal(n)) == digits_value(Seq::<char>::empty()) * 10 + n);
    } else {
        let q = n / 10;
        let r = n % 10;
        lemma_decimal_value(q);
        let d = decimal(n);
        assert(d.drop_last() == decimal(q));
        assert(digit_char(r) as u32 == 48 + r);
        assert(d.last() == digit_char(r));
        assert(digits_value(d) == digits_value(decimal(q)) * 10 + r);
        assert(q * 10 + r == n) by (nonlinear_arith)
            requires
                q == n / 10,
                r == n % 10,
        ;
        assert forall|i: int| 0 <= i < d.len() implies '0' <= #[trigger] d[i] <= '9' by {
            if i < d.len() - 1 {
                assert(d[i] == decimal(q)[i]);
            }
        }
        assert(d[0] == decimal(q)[0]);
        assert(q > 0);
    }
}

/// Appends the decimal numeral of `n` to `out`.
pub fn push_decimal(n: usize, out: &mut Vec<char>)
    ensures
        final(out)@ == old(out)@ + decimal(n as nat),
    decreases n,
{
    if n >= 10 {
        push_decimal(n / 10, out);
    }
    let d: u8 = (n % 10) as u8;
    let c = (48u8 + d) as char;
    assert(c == digit_char((n % 10) as nat));
    out.push(c);
}

/// `s` preceded by enough spaces to make it `width` characters long.
pub open spec fn pad_left(s: Seq<char>, width: nat) -> Seq<char> {
    if s.len() < width {
        Seq::new((width - s.len()) as nat, |i: int| ' ') + s
    } else {
        s
    }
}

/// Appends `s` to `out`, preceded by spaces up to `width` characters.
pub fn push_padded(s: &[char], width: usize, out: &mut Vec<char>)
    ensures
        final(out)@ == old(out)@ + pad_left(s@, width as nat),
{
    let ghost start = out@;
    if s.len() < width {
        let k = width - s.len();
        let mut i: usize = 0;
        while i < k
            invariant
                i <= k,
                k == width - s@.len(),
                out@ == start + Seq::new(i as nat, |j: int| ' '),
            decreases k - i,
        {
            out.push(' ');
            i = i + 1;
            assert(out@ =~= start + Seq::new(i as nat, |j: int| ' '));
        }
    }
    let ghost mid = out@;
    let mut j: usize = 0;
    while j < s.len()
        invariant
            j <= s@.len(),
            out@ == mid + s@.take(j as int),
        decreases s@.len() - j,
    {
        out.push(s[j]);
        j = j + 1;
        assert(out@ =~= mid + s@.take(j as int));
    }
    assert(s@.take(s@.len() as int) == s@);
    assert(out@ =~= start + pad_left(s@, width as nat));
}

/// Appends the characters of `s` to `out`.
pub fn push_str_chars(s: &str, out: &mut Vec<char>)
    ensures
        final(out)@ == old(out)@ + s@,
{
    let cs = str_chars(s);
    push_chars(cs.as_slice(), out);
}

/// Appends `s` to `out`.
pub fn push_chars(s: &[char], out: &mut Vec<char>)
    ensures
        final(out)@ == old(out)@ + s@,
{
    let ghost start = out@;
    let mut j: usize = 0;
    while j < s.len()
        invariant
            j <= s@.len(),
            out@ == start + s@.take(j as int),
        decreases s@.len() - j,
    {
        out.push(s[j]);
        j = j + 1;
        assert(out@ =~= start + s@.take(j as int));
    }
    assert(s@.take(s@.len() as int) == s@);
}

/// The value of a sequence of decimal digits.
pub open spec fn digits_value(s: Seq<char>) -> nat
    decreases s.len(),
{
    if s.len() == 0 {
        0
    } else {
        digits_value(s.drop_last()) * 10 + ((s.last() as u32) - 48) as nat
    }
}

/// Every character is an ASCII decimal digit.
pub open spec fn all_digits(s: Seq<char>) -> bool {
    forall|i: int| 0 <= i < s.len() ==> '0' <= #[trigger] s[i] <= '9'
}

/// What `str::parse::<usize>` gives: an optional `+` followed by one or more decimal
/// digits whose value fits in `usize`; otherwise nothing.
pub open spec fn parse_usize_spec(s: Seq<char>) -> Option<nat> {
    let d = if s.len() > 0 && s[0] == '+' {
        s.drop_first()
    } else {
        s
    };
    if d.len() > 0 && all_digits(d) && digits_value(d) <= usize::MAX {
        Some(digits_value(d))
    } else {
        None
    }
}

proof fn lemma_digits_value_monotone(s: Seq<char>, i: int)
    requires
        0 <= i <= s.len(),
        all_digits(s),
    ensures
        digits_value(s.take(i)) <= digits_value(s),
    decreases s.len() - i,
{
    if i < s.len() {
        lemma_digits_value_monotone(s, i + 1);
        let t = s.take(i + 1);
        assert(t.drop_last() == s.take(i));
        assert('0' <= t.last() <= '9');
    } else {
        assert(s.take(i) == s);
    }
}

/// Reads a `usize` the way `str::parse::<usize>` does.
pub fn parse_usize(s: &str) -> (r: Option<usize>)
    ensures
        match r {
            Some(v) => parse_usize_spec(s@) == Some(v as nat),
            None => parse_usize_spec(s@) is None,
        },
{
    let cs = str_chars(s);
    let ghost sv = cs@;
    let mut start: usize = 0;
    if cs.len() > 0 && cs[0] == '+' {
        start = 1;
    }
    let ghost d = sv.skip(start as int);
    assert(d == (if sv.len() > 0 && sv[0] == '+' {
        sv.drop_first()
    } else {
        sv
    }));
    if start >= cs.len() {
        return None;
    }
    let mut value: usize = 0;
    let mut i: usize = start;
    assert(d.take(0) == Seq::<char>::empty());
    while i < cs.len()
        invariant
            start <= i <= cs@.len(),
            sv == cs@,
            sv == s@,
            d == sv.skip(start as int),
            d == (if sv.len() > 0 && sv[0] == '+' {
                sv.drop_first()
            } else {
                sv
            }),
            d.len() > 0,
            all_digits(d.take(i - start)),
            value as nat == digits_value(d.take(i - start)),
        decreases cs@.len() - i,
    {
        let c = cs[i];
        if !('0' <= c && c <= '9') {
            proof {
                assert(d[i - start] == c);
                assert(!all_digits(d));
            }
            return None;
        }
        let digit = char_code(c) - 48;
        let ghost t = d.take(i - start + 1);
        proof {
            assert(t.drop_last() == d.take(i - start));
            assert(t.last() == c);
            assert forall|j: int| 0 <= j < t.len() implies '0' <= #[trigger] t[j] <= '9' by {
                if j < t.len() - 1 {
                    assert(t[j] == d.take(i - start)[j]);
                }
            }
        }
        match value.checked_mul(10) {
            Some(v10) => match v10.checked_add(digit as usize) {
                Some(v) => {
                    value = v;
                },
                None => {
                    proof {
                        assert(digits_value(t) == v10 + digit);
                        lemma_rest_is_digits_or_none(d, i - start + 1);
                    }
                    return None;
                },
            },
            None => {
                proof {
                    assert(digits_value(t) >= value * 10);
                    lemma_rest_is_digits_or_none(d, i - start + 1);
                }
                return None;
            },
        }
        i = i + 1;
    }
    assert(d.take(i - start) == d);
    Some(value)
}

/// Once a prefix of the digits is too large, the whole is too large (or not all digits).
proof fn lemma_rest_is_digits_or_none(d: Seq<char>, k: int)
    requires
        0 <= k <= d.len(),
        all_digits(d.take(k)),
        digits_value(d.take(k)) > usize::MAX,
    ensures
        !(all_digits(d) && digits_value(d) <= usize::MAX),
{
    if all_digits(d) {
        lemma_digits_value_monotone(d, k);
    }
}

/// Whitespace as `char::is_whitespace` defines it (the Unicode `White_Space` property).
pub open spec fn is_whitespace(c: char) -> bool {
    let v = c as u32;
    (0x9 <= v <= 0xD) || v == 0x20 || v == 0x85 || v == 0xA0 || v == 0x1680 || (0x2000 <= v
        <= 0x200A) || v == 0x2028 || v == 0x2029 || v == 0x202F || v == 0x205F || v == 0x3000
}

/// Whether `c` is whitespace.
pub fn char_is_whitespace(c: char) -> (r: bool)
    ensures
        r == is_whitespace(c),
{
    let v = char_code(c);
    (0x9 <= v && v <= 0xD) || v == 0x20 || v == 0x85 || v == 0xA0 || v == 0x1680 || (0x2000 <= v
        && v <= 0x200A) || v == 0x2028 || v == 0x2029 || v == 0x202F || v == 0x205F || v == 0x3000
}

/// `s` without its leading and trailing whitespace (what `str::trim` gives).
pub open spec fn trim_spec(s: Seq<char>) -> Seq<char> {
    trim_end_spec(trim_start_spec(s))
}

/// `s` without its leading whitespace.
pub open spec fn trim_start_spec(s: Seq<char>) -> Seq<char>
    decreases s.len(),
{
    if s.len() > 0 && is_whitespace(s[0]) {
        trim_start_spec(s.drop_first())
    } else {
        s
    }
}

/// `s` without its trailing whitespace.
pub open spec fn trim_end_spec(s: Seq<char>) -> Seq<char>
    decreases s.len(),
{
    if s.len() > 0 && is_whitespace(s.last()) {
        trim_end_spec(s.drop_last())
    } else {
        s
    }
}

/// The characters of `s` without leading and trailing whitespace.
pub fn trim_chars(s: &[char]) -> (r: Vec<char>)
    ensures
        r@ == trim_spec(s@),
{
    let mut a: usize = 0;
    assert(s@.skip(0) == s@);
    while a < s.len() && char_is_whitespace(s[a])
        invariant
            a <= s@.len(),
            trim_start_spec(s@) == trim_start_spec(s@.skip(a as int)),
        decreases s@.len() - a,
    {
        assert(s@.skip(a as int).drop_first() == s@.skip(a + 1));
        a = a + 1;
    }
    let ghost t = s@.skip(a as int);
    assert(trim_start_spec(t) == t);
    let mut b: usize = s.len();
    assert(t.take(t.len() as int) == t);
    while b > a && char_is_whitespace(s[b - 1])
        invariant
            a <= b <= s@.len(),
            t == s@.skip(a as int),
            trim_end_spec(t) == trim_end_spec(t.take(b - a)),
        decreases b,
    {
        assert(t.take(b - a).drop_last() == t.take(b - a - 1));
        assert(t.take(b - a).last() == s@[b - 1]);
        b = b - 1;
    }
    let mut r: Vec<char> = Vec::new();
    let mut i: usize = a;
    while i < b
        invariant
            a <= i <= b,
            b <= s@.len(),
            r@ == s@.subrange(a as int, i as int),
        decreases b - i,
    {
        r.push(s[i]);
        i = i + 1;
        assert(r@ =~= s@.subrange(a as int, i as int));
    }
    assert(r@ =~= t.take(b - a));
    r
}

/// Every character of `s` is whitespace.
pub open spec fn all_whitespace(s: Seq<char>) -> bool {
    forall|i: int| 0 <= i < s.len() ==> is_whitespace(#[trigger] s[i])
}

/// Trimming leaves nothing exactly when every character is whitespace.
pub proof fn lemma_trim_empty(s: Seq<char>)
    ensures
        trim_spec(s).len() == 0 <==> all_whitespace(s),
    decreases s.len(),
{
    if s.len() > 0 && is_whitespace(s[0]) {
        lemma_trim_empty(s.drop_first());
        if all_whitespace(s.drop_first()) {
            assert forall|i: int| 0 <= i < s.len() implies is_whitespace(#[trigger] s[i]) by {
                if i > 0 {
                    assert(s[i] == s.drop_first()[i - 1]);
                }
            }
        }
        if all_whitespace(s) {
            assert forall|i: int| 0 <= i < s.drop_first().len() implies is_whitespace(
                #[trigger] s.drop_first()[i],
            ) by {
                assert(s.drop_first()[i] == s[i + 1]);
            }
        }
    } else if s.len() > 0 {
        assert(trim_start_spec(s) == s);
        lemma_trim_end_keeps_first(s);
    } else {
        assert(trim_start_spec(s) == s);
    }
}

/// Trimming the end of a sequence whose first character is not whitespace keeps it non-empty.
proof fn lemma_trim_end_keeps_first(s: Seq<char>)
    requires
        s.len() > 0,
        !is_whitespace(s[0]),
    ensures
        trim_end_spec(s).len() > 0,
    decreases s.len(),
{
    if is_whitespace(s.last()) {
        assert(s.len() > 1);
        assert(s.drop_last()[0] == s[0]);
        lemma_trim_end_keeps_first(s.drop_last());
    }
}

/// `s` with every trailing occurrence of `pat` removed (what `str::trim_end_matches` gives
/// for a non-empty pattern).
pub open spec fn trim_end_matches_spec(s: Seq<char>, pat: Seq<char>) -> Seq<char>
    decreases s.len(),
{
    if pat.len() > 0 && pat.len() <= s.len() && s.skip(s.len() - pat.len()) == pat {
        trim_end_matches_spec(s.take(s.len() - pat.len()), pat)
    } else {
        s
    }
}

/// Removes every trailing occurrence of `pat` from `s`.
pub fn trim_end_matches_chars(s: &[char], pat: &[char]) -> (r: Vec<char>)
    ensures
        r@ == trim_end_matches_spec(s@, pat@),
{
    let mut end: usize = s.len();
    assert(s@.take(s@.len() as int) == s@);
    loop
        invariant
            end <= s@.len(),
            trim_end_matches_spec(s@, pat@) == trim_end_matches_spec(s@.take(end as int), pat@),
        ensures
            end <= s@.len(),
            trim_end_matches_spec(s@, pat@) == s@.take(end as int),
        decreases end,
    {
        if pat.len() == 0 || pat.len() > end {
            break;
        }
        let start = end - pat.len();
        let mut j: usize = 0;
        let mut same = true;
        while j < pat.len()
            invariant
                j <= pat@.len(),
                start + pat@.len() == end,
                end <= s@.len(),
                same == (forall|k: int| 0 <= k < j ==> s@[start + k] == pat@[k]),
            decreases pat@.len() - j,
        {
            if s[start + j] != pat[j] {
                same = false;
            }
            j = j + 1;
        }
        let ghost t = s@.take(end as int);
        assert(same <==> t.skip(t.len() - pat@.len()) == pat@) by {
            if same {
                assert(t.skip(t.len() - pat@.len()) =~= pat@);
            }
            if t.skip(t.len() - pat@.len()) == pat@ {
                assert forall|k: int| 0 <= k < pat@.len() implies s@[start + k] == pat@[k] by {
                    assert(t.skip(t.len() - pat@.len())[k] == s@[start + k]);
                }
            }
        }
        if !same {
            break;
        }
        assert(t.take(t.len() - pat@.len()) == s@.take(start as int));
        end = start;
    }
    let mut r: Vec<char> = Vec::new();
    let mut i: usize = 0;
    while i < end
        invariant
            i <= end,
            end <= s@.len(),
            r@ == s@.take(i as int),
        decreases end - i,
    {
        r.push(s[i]);
        i = i + 1;
        assert(r@ =~= s@.take(i as int));
    }
    r
}

/// The pieces of `s` between occurrences of `sep` (what `str::split` gives for a
/// character): one more piece than there are separators, empty pieces included.
pub open spec fn split_spec(s: Seq<char>, sep: char) -> Seq<Seq<char>>
    decreases s.len(),
{
    if s.len() == 0 {
        seq![Seq::empty()]
    } else {
        let r = split_spec(s.drop_last(), sep);
        if s.last() == sep {
            r.push(Seq::empty())
        } else {
            r.update(r.len() - 1, r.last().push(s.last()))
        }
    }
}

pub proof fn lemma_split_spec_nonempty(s: Seq<char>, sep: char)
    ensures
        split_spec(s, sep).len() > 0,
    decreases s.len(),
{
    if s.len() > 0 {
        lemma_split_spec_nonempty(s.drop_last(), sep);
    }
}

/// Splitting at a separator splits the text on each side of it.
pub proof fn lemma_split_concat(a: Seq<char>, b: Seq<char>, sep: char)
    ensures
        split_spec(a + seq![sep] + b, sep) == split_spec(a, sep) + split_spec(b, sep),
    decreases b.len(),
{
    let whole = a + seq![sep] + b;
    if b.len() == 0 {
        assert(whole.drop_last() == a);
        assert(split_spec(b, sep) == seq![Seq::<char>::empty()]);
        assert(split_spec(a, sep).push(Seq::empty()) == split_spec(a, sep) + seq![Seq::<char>::empty()]);
    } else {
        let b0 = b.drop_last();
        lemma_split_concat(a, b0, sep);
        assert(whole.drop_last() == a + seq![sep] + b0);
        assert(whole.last() == b.last());
        let sa = split_spec(a, sep);
        let sb0 = split_spec(b0, sep);
        lemma_split_spec_nonempty(b0, sep);
        if b.last() == sep {
            assert((sa + sb0).push(Seq::empty()) == sa + sb0.push(Seq::empty()));
        } else {
            let r = sa + sb0;
            assert(r.last() == sb0.last());
            assert(r.update(r.len() - 1, r.last().push(b.last())) == sa + sb0.update(
                sb0.len() - 1,
                sb0.last().push(b.last()),
            ));
        }
    }
}

/// Text without the separator is one piece.
pub proof fn lemma_split_no_sep(a: Seq<char>, sep: char)
    requires
        !a.contains(sep),
    ensures
        split_spec(a, sep) == seq![a],
    decreases a.len(),
{
    if a.len() > 0 {
        let a0 = a.drop_last();
        assert(!a0.contains(sep)) by {
            if a0.contains(sep) {
                let i = choose|i: int| 0 <= i < a0.len() && a0[i] == sep;
                assert(a[i] == sep);
            }
        }
        lemma_split_no_sep(a0, sep);
        assert(a[a.len() - 1] != sep);
        assert(a0.push(a.last()) == a);
        let r = split_spec(a0, sep);
        assert(r.update(r.len() - 1, r.last().push(a.last())) =~= seq![a]);
    } else {
        assert(a =~= Seq::<char>::empty());
    }
}

/// Splitting gives pieces without the separator that, joined with it, give the text back.
pub proof fn lemma_split_rejoins(s: Seq<char>, sep: char)
    ensures
        forall|i: int|
            0 <= i < split_spec(s, sep).len() ==> !(#[trigger] split_spec(s, sep)[i]).contains(sep),
        seq_join(split_spec(s, sep), seq![sep]) == s,
    decreases s.len(),
{
    if s.len() == 0 {
        assert(seq_join(seq![Seq::<char>::empty()], seq![sep]) == Seq::<char>::empty());
    } else {
        let s0 = s.drop_last();
        let x = s.last();
        let r = split_spec(s0, sep);
        lemma_split_rejoins(s0, sep);
        lemma_split_spec_nonempty(s0, sep);
        assert(s0.push(x) == s);
        if x == sep {
            let t = r.push(Seq::empty());
            assert(t.drop_last() == r);
            assert forall|i: int| 0 <= i < t.len() implies !(#[trigger] t[i]).contains(sep) by {
                if i < r.len() {
                    assert(t[i] == r[i]);
                }
            }
            assert(seq_join(r, seq![sep]) + seq![sep] + Seq::<char>::empty() == s);
        } else {
            let last = r.last().push(x);
            let t = r.update(r.len() - 1, last);
            assert forall|i: int| 0 <= i < t.len() implies !(#[trigger] t[i]).contains(sep) by {
                if i < r.len() - 1 {
                    assert(t[i] == r[i]);
                } else {
                    assert(!r[r.len() - 1].contains(sep));
                    if last.contains(sep) {
                        let j = choose|j: int| 0 <= j < last.len() && last[j] == sep;
                        if j < r.last().len() {
                            assert(r.last()[j] == sep);
                        }
                    }
                }
            }
            if r.len() == 1 {
                assert(t == seq![last]);
                assert(seq_join(r, seq![sep]) == r[0]);
            } else {
                assert(t.drop_last() == r.drop_last());
                assert(seq_join(t, seq![sep]) == seq_join(r.drop_last(), seq![sep]) + seq![sep] + last);
                assert(seq_join(r, seq![sep]) == seq_join(r.drop_last(), seq![sep]) + seq![sep] + r.last());
                assert(seq_join(r.drop_last(), seq![sep]) + seq![sep] + r.last().push(x) == (seq_join(
                    r.drop_last(),
                    seq![sep],
                ) + seq![sep] + r.last()).push(x));
            }
        }
    }
}

/// Trimming the start removes a run of whitespace, and what is left does not begin with
/// whitespace.
proof fn lemma_trim_start_parts(s: Seq<char>)
    ensures
        exists|w: Seq<char>| all_whitespace(w) && #[trigger] (w + trim_start_spec(s)) == s,
        trim_start_spec(s).len() > 0 ==> !is_whitespace(trim_start_spec(s)[0]),
    decreases s.len(),
{
    if s.len() > 0 && is_whitespace(s[0]) {
        lemma_trim_start_parts(s.drop_first());
        let w = choose|w: Seq<char>| all_whitespace(w) && #[trigger] (w + trim_start_spec(s.drop_first())) == s.drop_first();
        let w2 = seq![s[0]] + w;
        assert(all_whitespace(w2)) by {
            assert forall|i: int| 0 <= i < w2.len() implies is_whitespace(#[trigger] w2[i]) by {
                if i > 0 {
                    assert(w2[i] == w[i - 1]);
                }
            }
        }
        assert(trim_start_spec(s) == trim_start_spec(s.drop_first()));
        assert(w2 + trim_start_spec(s) =~= seq![s[0]] + (w + trim_start_spec(s.drop_first())));
        assert(seq![s[0]] + s.drop_first() =~= s);
        assert(w2 + trim_start_spec(s) == s);
    } else {
        assert(Seq::<char>::empty() + trim_start_spec(s) =~= s);
        assert(all_whitespace(Seq::<char>::empty()));
    }
}

/// Trimming the end removes a run of whitespace, and what is left does not end with
/// whitespace.
proof fn lemma_trim_end_parts(s: Seq<char>)
    ensures
        exists|w: Seq<char>| all_whitespace(w) && #[trigger] (trim_end_spec(s) + w) == s,
        trim_end_spec(s).len() > 0 ==> !is_whitespace(trim_end_spec(s).last()),
        trim_end_spec(s).len() > 0 ==> trim_end_spec(s)[0] == s[0],
    decreases s.len(),
{
    if s.len() > 0 && is_whitespace(s.last()) {
        lemma_trim_end_parts(s.drop_last());
        let w = choose|w: Seq<char>| all_whitespace(w) && #[trigger] (trim_end_spec(s.drop_last()) + w) == s.drop_last();
        let w2 = w.push(s.last());
        assert(all_whitespace(w2)) by {
            assert forall|i: int| 0 <= i < w2.len() implies is_whitespace(#[trigger] w2[i]) by {
                if i < w.len() {
                    assert(w2[i] == w[i]);
                }
            }
        }
        assert(trim_end_spec(s) == trim_end_spec(s.drop_last()));
        assert(trim_end_spec(s) + w2 =~= (trim_end_spec(s.drop_last()) + w).push(s.last()));
        assert(s.drop_last().push(s.last()) =~= s);
        assert(trim_end_spec(s) + w2 == s);
        if trim_end_spec(s).len() > 0 {
            assert(s.drop_last()[0] == s[0]);
        }
    } else {
        assert(trim_end_spec(s) + Seq::<char>::empty() =~= s);
        assert(all_whitespace(Seq::<char>::empty()));
    }
}

/// Trimming removes whitespace from both ends and nothing else: the text is some
/// whitespace, the result and some whitespace, and the result neither begins nor ends
/// with whitespace.
pub proof fn lemma_trim_removes_outer_whitespace(s: Seq<char>)
    ensures
        exists|a: Seq<char>, b: Seq<char>|
            all_whitespace(a) && all_whitespace(b) && #[trigger] (a + trim_spec(s) + b) == s,
        trim_spec(s).len() > 0 ==> !is_whitespace(trim_spec(s)[0]) && !is_whitespace(
            trim_spec(s).last(),
        ),
{
    let m = trim_start_spec(s);
    lemma_trim_start_parts(s);
    lemma_trim_end_parts(m);
    let a = choose|w: Seq<char>| all_whitespace(w) && #[trigger] (w + trim_start_spec(s)) == s;
    let b = choose|w: Seq<char>| all_whitespace(w) && #[trigger] (trim_end_spec(m) + w) == m;
    assert(a + trim_spec(s) + b =~= a + (trim_end_spec(m) + b));
    assert(a + trim_spec(s) + b == s);
}

/// Splits `s` at every occurrence of `sep`.
pub fn split_chars(s: &[char], sep: char) -> (r: Vec<Vec<char>>)
    ensures
        views(r@) == split_spec(s@, sep),
{
    let mut done: Vec<Vec<char>> = Vec::new();
    let mut cur: Vec<char> = Vec::new();
    let mut i: usize = 0;
    assert(s@.take(0) == Seq::<char>::empty());
    while i < s.len()
        invariant
            i <= s@.len(),
            views(done@).push(cur@) == split_spec(s@.take(i as int), sep),
        decreases s@.len() - i,
    {
        let ghost t = s@.take(i + 1);
        proof {
            assert(t.drop_last() == s@.take(i as int));
            assert(t.last() == s@[i as int]);
            lemma_split_spec_nonempty(s@.take(i as int), sep);
        }
        if s[i] == sep {
            let ghost before = done@;
            let piece = cur;
            done.push(piece);
            cur = Vec::new();
            assert(views(done@).push(cur@) =~= views(before).push(piece@).push(Seq::empty()));
        } else {
            let ghost before = cur@;
            cur.push(s[i]);
            assert(views(done@).push(cur@) =~= views(done@).push(before).update(
                views(done@).len() as int,
                before.push(s@[i as int]),
            ));
        }
        i = i + 1;
    }
    assert(s@.take(s@.len() as int) == s@);
    let ghost before = done@;
    done.push(cur);
    assert(views(done@) =~= views(before).push(cur@));
    done
}

/// Whether `c` occurs in `s`.
pub fn contains_char(s: &[char], c: char) -> (r: bool)
    ensures
        r == s@.contains(c),
{
    let mut i: usize = 0;
    while i < s.len()
        invariant
            i <= s@.len(),
            forall|j: int| 0 <= j < i ==> s@[j] != c,
        decreases s@.len() - i,
    {
        if s[i] == c {
            assert(s@[i as int] == c);
            return true;
        }
        i = i + 1;
    }
    false
}

/// The number of bytes of the UTF-8 encoding of `c`.
pub fn char_width(c: char) -> (r: usize)
    ensures
        r == vstd::utf8::encode_scalar(c as u32).len(),
        1 <= r <= 4,
{
    let v = char_code(c);
    proof {
        vstd::utf8::char_is_scalar(c);
    }
    if v < 0x80 {
        1
    } else if v < 0x800 {
        2
    } else if v < 0x10000 {
        3
    } else {
        4
    }
}

/// The number of bytes of the UTF-8 encoding of `s`.
pub open spec fn byte_len(s: Seq<char>) -> nat {
    vstd::utf8::encode_utf8(s).len()
}

/// Encoding `s + t` is encoding `s` and then `t`.
pub proof fn lemma_encode_concat(s: Seq<char>, t: Seq<char>)
    ensures
        vstd::utf8::encode_utf8(s + t) == vstd::utf8::encode_utf8(s) + vstd::utf8::encode_utf8(t),
    decreases s.len(),
{
    if s.len() > 0 {
        lemma_encode_concat(s.drop_first(), t);
        assert((s + t).drop_first() == s.drop_first() + t);
        assert((s + t)[0] == s[0]);
    } else {
        assert(s + t == t);
    }
}

/// The byte length of `s` with one more character.
pub proof fn lemma_byte_len_push(s: Seq<char>, c: char)
    ensures
        byte_len(s.push(c)) == byte_len(s) + vstd::utf8::encode_scalar(c as u32).len(),
{
    lemma_encode_concat(s, seq![c]);
    assert(s + seq![c] == s.push(c));
    assert(seq![c].drop_first() == Seq::<char>::empty());
    assert(vstd::utf8::encode_utf8(seq![c]) == vstd::utf8::encode_scalar(c as u32) + vstd::utf8::encode_utf8(Seq::<char>::empty()));
}

/// The number of bytes of the UTF-8 encoding of `s`, counted in a wide integer.
pub fn chars_byte_len(s: &[char]) -> (n: u128)
    ensures
        n == byte_len(s@),
{
    let mut n: u128 = 0;
    let mut i: usize = 0;
    assert(s@.take(0) == Seq::<char>::empty());
    while i < s.len()
        invariant
            i <= s@.len(),
            n == byte_len(s@.take(i as int)),
            n <= 4 * i,
        decreases s@.len() - i,
    {
        proof {
            lemma_byte_len_push(s@.take(i as int), s@[i as int]);
            assert(s@.take(i as int).push(s@[i as int]) == s@.take(i + 1));
        }
        let w = char_width(s[i]);
        n = n + w as u128;
        i = i + 1;
    }
    assert(s@.take(s@.len() as int) == s@);
    n
}

/// The strings of `list` with `sep` between each two of them.
pub fn join_strings(list: &[String], sep: &str) -> (res: String)
    ensures
        res@ == seq_join(string_views(list@), sep@),
{
    let ghost views = string_views(list@);
    let mut res = String::new();
    let mut i: usize = 0;
    assert(views.take(0) == Seq::<Seq<char>>::empty());
    while i < list.len()
        invariant
            i <= list@.len(),
            views == string_views(list@),
            res@ == seq_join(views.take(i as int), sep@),
        decreases list@.len() - i,
    {
        let ghost before = res@;
        if i > 0 {
            res.append(sep);
        }
        res.append(list[i].as_str());
        proof {
            let t = views.take(i + 1);
            assert(t.drop_last() == views.take(i as int));
            assert(t.last() == list@[i as int]@);
            if i == 0 {
                assert(t.len() == 1);
                assert(before == Seq::<char>::empty());
                assert(res@ == list@[0]@);
            }
        }
        i = i + 1;
    }
    assert(views.take(list@.len() as int) == views);
    res
}

/// Sorted by the first component in `seq_less` order, equal ones in any order.
pub open spec fn sorted_by_name(s: Seq<(Seq<char>, bool)>) -> bool {
    forall|i: int, j: int| 0 <= i < j < s.len() ==> !seq_less((#[trigger] s[j]).0, (#[trigger] s[i]).0)
}

/// The entries as plain values.
pub open spec fn entry_views(v: Seq<(Vec<char>, bool)>) -> Seq<(Seq<char>, bool)> {
    v.map_values(|e: (Vec<char>, bool)| (e.0@, e.1))
}

/// Sorts entries by name, keeping entries with equal names in their order.
pub fn sort_by_name(v: Vec<(Vec<char>, bool)>) -> (r: Vec<(Vec<char>, bool)>)
    ensures
        sorted_by_name(entry_views(r@)),
        entry_views(r@).to_multiset() == entry_views(v@).to_multiset(),
        r@.len() == v@.len(),
{
    broadcast use vstd::seq_lib::group_to_multiset_ensures;
    broadcast use vstd::multiset::group_multiset_axioms;

    let ghost vv = entry_views(v@);
    let mut r: Vec<(Vec<char>, bool)> = Vec::new();
    let mut i: usize = 0;
    assert(vv.take(0) =~= Seq::<(Seq<char>, bool)>::empty());
    assert(entry_views(r@) =~= Seq::<(Seq<char>, bool)>::empty());
    while i < v.len()
        invariant
            i <= v@.len(),
            vv == entry_views(v@),
            sorted_by_name(entry_views(r@)),
            entry_views(r@).to_multiset() == vv.take(i as int).to_multiset(),
            r@.len() == i,
        decreases v@.len() - i,
    {
        let x = (v[i].0.clone(), v[i].1);
        let ghost xv = (x.0@, x.1);
        assert(xv == vv[i as int]);
        let ghost rv = entry_views(r@);
        let mut j: usize = 0;
        while j < r.len() && !chars_less(x.0.as_slice(), r[j].0.as_slice())
            invariant
                j <= r@.len(),
                rv == entry_views(r@),
                xv == (x.0@, x.1),
                forall|k: int| 0 <= k < j ==> !seq_less(xv.0, (#[trigger] rv[k]).0),
            decreases r@.len() - j,
        {
            j = j + 1;
        }
        r.insert(j, x);
        proof {
            let nv = entry_views(r@);
            assert(nv =~= rv.insert(j as int, xv));
            assert forall|a: int, b: int| 0 <= a < b < nv.len() implies !seq_less(
                (#[trigger] nv[b]).0,
                (#[trigger] nv[a]).0,
            ) by {
                if b < j {
                } else if b == j {
                } else if a < j {
                    if seq_less(nv[b].0, nv[a].0) {
                        if b == j + 1 {
                            lemma_seq_less_total(xv.0, rv[j as int].0);
                            lemma_seq_less_transitive(rv[j as int].0, nv[a].0, xv.0);
                        } else {
                            assert(!seq_less(rv[b - 1].0, rv[j as int].0));
                            lemma_seq_less_total(xv.0, rv[j as int].0);
                            if seq_less(xv.0, rv[j as int].0) {
                                lemma_seq_less_transitive(nv[b].0, nv[a].0, xv.0);
                                lemma_seq_less_transitive(nv[b].0, xv.0, rv[j as int].0);
                            } else {
                                lemma_seq_less_transitive(nv[b].0, nv[a].0, xv.0);
                                assert(rv[j as int].0 == xv.0);
                            }
                        }
                    }
                } else if a == j {
                    if seq_less(nv[b].0, xv.0) {
                        assert(j < rv.len());
                        assert(seq_less(xv.0, rv[j as int].0));
                        if b == j + 1 {
                            lemma_seq_less_transitive(nv[b].0, xv.0, rv[j as int].0);
                            lemma_seq_less_irreflexive(nv[b].0);
                        } else {
                            assert(!seq_less(rv[b - 1].0, rv[j as int].0));
                            lemma_seq_less_transitive(nv[b].0, xv.0, rv[j as int].0);
                        }
                    }
                } else {
                    assert(nv[a] == rv[a - 1] && nv[b] == rv[b - 1]);
                }
            }
            vstd::seq_lib::to_multiset_insert(rv, j as int, xv);
            assert(nv.to_multiset() =~= rv.to_multiset().insert(xv));
            assert(vv.take(i + 1) =~= vv.take(i as int).push(xv));
            vstd::seq_lib::to_multiset_build(vv.take(i as int), xv);
        }
        i = i + 1;
    }
    assert(vv.take(v@.len() as int) =~= vv);
    r
}

} // verus!
