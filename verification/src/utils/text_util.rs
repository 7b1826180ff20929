//! Verified helpers over strings and byte strings. Strings are modelled as
//! sequences of `char`; their bytes are the UTF-8 encoding of those.
use vstd::prelude::*;
use vstd::utf8::*;

verus! {

/// The position of the first `x` in `s`, if any.
pub open spec fn index_of<T>(s: Seq<T>, x: T) -> Option<int>
    decreases s.len(),
{
    if s.len() == 0 {
        None
    } else if s[0] == x {
        Some(0)
    } else {
        match index_of(s.drop_first(), x) {
            Some(i) => Some(i + 1),
            None => None,
        }
    }
}

/// `index_of` finds the first occurrence, and finds none only when there is none.
pub proof fn lemma_index_of<T>(s: Seq<T>, x: T)
    ensures
        index_of(s, x) matches Some(i) ==> 0 <= i < s.len() && s[i] == x && forall|k: int|
            0 <= k < i ==> s[k] != x,
        index_of(s, x) is None ==> forall|k: int| 0 <= k < s.len() ==> s[k] != x,
    decreases s.len(),
{
    if s.len() > 0 && s[0] != x {
        let t = s.drop_first();
        lemma_index_of(t, x);
        match index_of(t, x) {
            Some(i) => {
                assert forall|k: int| 0 <= k < i + 1 implies s[k] != x by {
                    if k > 0 {
                        assert(s[k] == t[k - 1]);
                    }
                }
                assert(s[i + 1] == t[i]);
            },
            None => {
                assert forall|k: int| 0 <= k < s.len() implies s[k] != x by {
                    if k > 0 {
                        assert(s[k] == t[k - 1]);
                    }
                }
            },
        }
    }
}

/// A position is the first occurrence exactly when `index_of` says so.
pub proof fn lemma_index_of_at<T>(s: Seq<T>, x: T, i: int)
    requires
        0 <= i < s.len(),
        s[i] == x,
        forall|k: int| 0 <= k < i ==> s[k] != x,
    ensures
        index_of(s, x) == Some(i),
{
    lemma_index_of(s, x);
}

/// The position of the first `x` in `s` at or after `from`.
pub fn find_byte(s: &[u8], from: usize, x: u8) -> (r: Option<usize>)
    requires
        from <= s@.len(),
    ensures
        r == (match index_of(s@.skip(from as int), x) {
            Some(i) => Some((from + i) as usize),
            None => None::<usize>,
        }),
{
    let mut i = from;
    while i < s.len()
        invariant
            from <= i <= s.len(),
            forall|k: int| from <= k < i ==> s@[k] != x,
        decreases s.len() - i,
    {
        if s[i] == x {
            proof {
                lemma_index_of_at(s@.skip(from as int), x, i - from);
            }
            return Some(i);
        }
        i = i + 1;
    }
    proof {
        lemma_index_of(s@.skip(from as int), x);
        if index_of(s@.skip(from as int), x) is Some {
            let j = index_of(s@.skip(from as int), x)->0;
            assert(s@[from + j] == x);
        }
    }
    None
}

/// Whether two string slices hold the same characters.
pub fn str_eq(a: &str, b: &str) -> (r: bool)
    ensures
        r == (a@ == b@),
{
    let x = a.as_bytes();
    let y = b.as_bytes();
    proof {
        encode_utf8_decode_utf8(a@);
        encode_utf8_decode_utf8(b@);
    }
    if x.len() != y.len() {
        return false;
    }
    let mut i: usize = 0;
    while i < x.len()
        invariant
            x.len() == y.len(),
            x@ == encode_utf8(a@),
            y@ == encode_utf8(b@),
            0 <= i <= x.len(),
            forall|k: int| 0 <= k < i ==> x@[k] == y@[k],
        decreases x.len() - i,
    {
        if x[i] != y[i] {
            return false;
        }
        i = i + 1;
    }
    assert(x@ =~= y@);
    true
}

/// The characters of a string slice.
pub fn chars_of(s: &str) -> (r: Vec<char>)
    ensures
        r@ == s@,
{
    broadcast use vstd::string::group_string_axioms;

    let mut r: Vec<char> = Vec::new();
    for c in it: s.chars()
        invariant
            r@ == it.seq().take(it.index() as int),
    {
        r.push(c);
    }
    r
}

/// Whether `c` is white space in the sense of Unicode's `White_Space`
/// property, as `char::is_whitespace` decides it.
pub open spec fn is_ws(c: char) -> bool {
    ||| c == ' '
    ||| '\t' <= c <= '\r'
    ||| c == '\u{85}'
    ||| c == '\u{a0}'
    ||| c == '\u{1680}'
    ||| '\u{2000}' <= c <= '\u{200a}'
    ||| c == '\u{2028}'
    ||| c == '\u{2029}'
    ||| c == '\u{202f}'
    ||| c == '\u{205f}'
    ||| c == '\u{3000}'
}

/// Whether `c` is white space.
pub fn is_whitespace(c: char) -> (r: bool)
    ensures
        r == is_ws(c),
{
    c == ' ' || ('\t' <= c && c <= '\r') || c == '\u{85}' || c == '\u{a0}' || c == '\u{1680}' || (
    '\u{2000}' <= c && c <= '\u{200a}') || c == '\u{2028}' || c == '\u{2029}' || c == '\u{202f}'
        || c == '\u{205f}' || c == '\u{3000}'
}

/// `s` without its leading white space.
pub open spec fn trim_start(s: Seq<char>) -> Seq<char>
    decreases s.len(),
{
    if s.len() > 0 && is_ws(s[0]) {
        trim_start(s.drop_first())
    } else {
        s
    }
}

/// `s` without its trailing white space.
pub open spec fn trim_end(s: Seq<char>) -> Seq<char>
    decreases s.len(),
{
    if s.len() > 0 && is_ws(s.last()) {
        trim_end(s.drop_last())
    } else {
        s
    }
}

/// `s` without leading and trailing white space, as `str::trim` gives it.
pub open spec fn trimmed(s: Seq<char>) -> Seq<char> {
    trim_end(trim_start(s))
}

proof fn lemma_trim_start_skip(s: Seq<char>, i: int)
    requires
        0 <= i <= s.len(),
        forall|k: int| 0 <= k < i ==> is_ws(s[k]),
    ensures
        trim_start(s) == trim_start(s.skip(i)),
    decreases i,
{
    if i > 0 {
        lemma_trim_start_skip(s.drop_first(), i - 1);
        assert(s.drop_first().skip(i - 1) =~= s.skip(i));
    } else {
        assert(s.skip(0) =~= s);
    }
}

proof fn lemma_trim_end_take(s: Seq<char>, j: int)
    requires
        0 <= j <= s.len(),
        forall|k: int| j <= k < s.len() ==> is_ws(s[k]),
    ensures
        trim_end(s) == trim_end(s.take(j)),
    decreases s.len() - j,
{
    if j < s.len() {
        lemma_trim_end_take(s.drop_last(), j);
        assert(s.drop_last().take(j) =~= s.take(j));
    } else {
        assert(s.take(j) =~= s);
    }
}

/// `s` without leading and trailing white space.
pub fn trim<'a>(s: &'a str) -> (r: &'a str)
    ensures
        r@ == trimmed(s@),
{
    let cs = chars_of(s);
    let n = cs.len();
    let mut i: usize = 0;
    while i < n && is_whitespace(cs[i])
        invariant
            cs@ == s@,
            n == cs@.len(),
            i <= n,
            forall|k: int| 0 <= k < i ==> is_ws(cs@[k]),
        decreases n - i,
    {
        i = i + 1;
    }
    let mut j: usize = n;
    while j > i && is_whitespace(cs[j - 1])
        invariant
            cs@ == s@,
            n == cs@.len(),
            i <= j <= n,
            forall|k: int| j <= k < n ==> is_ws(cs@[k]),
        decreases j,
    {
        j = j - 1;
    }
    proof {
        lemma_trim_start_skip(s@, i as int);
        let t = s@.skip(i as int);
        if i < n {
            assert(!is_ws(t[0]));
        } else {
            assert(t.len() == 0);
        }
        assert(trim_start(t) == t);
        lemma_trim_end_take(t, j - i);
        let u = t.take(j - i);
        if j > i {
            assert(!is_ws(u.last()));
        }
        assert(trim_end(u) == u);
        assert(u =~= s@.subrange(i as int, j as int));
    }
    s.substring_char(i, j)
}

/// The prefix `p` taken off `s`, if `s` starts with it.
pub open spec fn strip_prefix_spec(s: Seq<char>, p: Seq<char>) -> Option<Seq<char>> {
    if p.len() <= s.len() && s.take(p.len() as int) == p {
        Some(s.skip(p.len() as int))
    } else {
        None
    }
}

/// Takes `prefix` off `s`, if `s` starts with it.
pub fn strip_prefix<'a>(s: &'a str, prefix: &str) -> (r: Option<&'a str>)
    ensures
        r matches Some(t) ==> strip_prefix_spec(s@, prefix@) == Some(t@),
        r is None ==> strip_prefix_spec(s@, prefix@) is None,
{
    let cs = chars_of(s);
    let ps = chars_of(prefix);
    if ps.len() > cs.len() {
        return None;
    }
    let mut i: usize = 0;
    while i < ps.len()
        invariant
            cs@ == s@,
            ps@ == prefix@,
            ps@.len() <= cs@.len(),
            i <= ps@.len(),
            forall|k: int| 0 <= k < i ==> cs@[k] == ps@[k],
        decreases ps.len() - i,
    {
        if cs[i] != ps[i] {
            assert(s@.take(prefix@.len() as int)[i as int] != prefix@[i as int]);
            return None;
        }
        i = i + 1;
    }
    assert(s@.take(prefix@.len() as int) =~= prefix@);
    Some(s.substring_char(ps.len(), cs.len()))
}

/// `l` without one trailing carriage return.
pub open spec fn strip_cr(l: Seq<char>) -> Seq<char> {
    if l.len() > 0 && l.last() == '\r' {
        l.drop_last()
    } else {
        l
    }
}

/// The lines of `s` as `str::lines` gives them: split at each `'\n'`, a
/// `'\r'` before the `'\n'` taken off, and no empty line after a final `'\n'`.
pub open spec fn split_lines(s: Seq<char>) -> Seq<Seq<char>>
    decreases s.len(),
{
    if s.len() == 0 {
        Seq::empty()
    } else {
        match index_of(s, '\n') {
            Some(i) => {
                if 0 <= i < s.len() {
                    seq![strip_cr(s.take(i))] + split_lines(s.skip(i + 1))
                } else {
                    Seq::empty()
                }
            },
            None => seq![s],
        }
    }
}

/// The characters of each string slice.
pub open spec fn strs_view<'a>(lines: Seq<&'a str>) -> Seq<Seq<char>> {
    lines.map_values(|l: &'a str| l@)
}

/// The lines of `text`, as `str::lines` gives them.
pub fn text_lines<'a>(text: &'a str) -> (r: Vec<&'a str>)
    ensures
        strs_view(r@) == split_lines(text@),
{
    let cs = chars_of(text);
    let n = cs.len();
    let mut r: Vec<&'a str> = Vec::new();
    let mut start: usize = 0;
    let mut i: usize = 0;
    assert(text@.skip(0) =~= text@);
    assert(strs_view(r@) + split_lines(text@) =~= split_lines(text@));
    while i < n
        invariant
            cs@ == text@,
            n == cs@.len(),
            start <= i <= n,
            forall|k: int| start <= k < i ==> cs@[k] != '\n',
            split_lines(text@) == strs_view(r@) + split_lines(text@.skip(start as int)),
        decreases n - i,
    {
        if cs[i] == '\n' {
            let ghost rest = text@.skip(start as int);
            proof {
                lemma_index_of_at(rest, '\n', i - start);
                assert(rest.take(i - start) =~= text@.subrange(start as int, i as int));
                assert(rest.skip(i - start + 1) =~= text@.skip(i + 1));
            }
            let end = if i > start && cs[i - 1] == '\r' {
                i - 1
            } else {
                i
            };
            assert(strip_cr(text@.subrange(start as int, i as int)) =~= text@.subrange(
                start as int,
                end as int,
            ));
            let line = text.substring_char(start, end);
            let ghost before = r@;
            r.push(line);
            proof {
                assert(strs_view(r@) =~= strs_view(before).push(line@));
                assert(seq![line@] + split_lines(text@.skip(i + 1)) == split_lines(rest));
                assert(strs_view(before).push(line@) + split_lines(text@.skip(i + 1))
                    =~= strs_view(before) + (seq![line@] + split_lines(text@.skip(i + 1))));
            }
            start = i + 1;
        }
        i = i + 1;
    }
    let ghost rest = text@.skip(start as int);
    if start < n {
        proof {
            lemma_index_of(rest, '\n');
            if index_of(rest, '\n') is Some {
                let j = index_of(rest, '\n')->0;
                assert(cs@[start + j] == '\n');
            }
            assert(rest =~= text@.subrange(start as int, n as int));
        }
        let line = text.substring_char(start, n);
        let ghost before = r@;
        r.push(line);
        proof {
            assert(strs_view(r@) =~= strs_view(before).push(line@));
            assert(strs_view(before) + seq![line@] =~= strs_view(before).push(line@));
        }
    } else {
        assert(rest.len() == 0);
        assert(strs_view(r@) + Seq::<Seq<char>>::empty() =~= strs_view(r@));
    }
    r
}

/// The UTF-8 text that `bytes` encode, if they are valid UTF-8
/// (`String::from_utf8`).
#[verifier::external_body]
pub(crate) fn string_from_utf8(bytes: Vec<u8>) -> (r: Option<String>)
    ensures
        r is Some <==> valid_utf8(bytes@),
        r matches Some(s) ==> s@ == decode_utf8(bytes@),
{
    String::from_utf8(bytes).ok()
}

/// The UTF-8 text that `bytes` encode, if they are valid UTF-8
/// (`std::str::from_utf8`).
#[verifier::external_body]
pub(crate) fn str_from_utf8(bytes: &[u8]) -> (r: Option<&str>)
    ensures
        r is Some <==> valid_utf8(bytes@),
        r matches Some(s) ==> s@ == decode_utf8(bytes@),
{
    std::str::from_utf8(bytes).ok()
}


/// The decimal digits of `n`, as ASCII bytes.
pub open spec fn decimal(n: nat) -> Seq<u8>
    decreases n,
{
    if n < 10 {
        seq![(48 + n) as u8]
    } else {
        decimal(n / 10).push((48 + n % 10) as u8)
    }
}

/// The decimal digits of `n`, as characters.
pub open spec fn decimal_chars(n: nat) -> Seq<char> {
    decimal(n).map_values(|b: u8| b as char)
}

/// Appends the decimal digits of `n` to `out`.
pub fn push_decimal(n: u64, out: &mut Vec<u8>)
    ensures
        final(out)@ == old(out)@ + decimal(n as nat),
    decreases n,
{
    if n >= 10 {
        push_decimal(n / 10, out);
    }
    out.push((48 + n % 10) as u8);
    proof {
        if n < 10 {
            assert(old(out)@.push((48 + n % 10) as u8) =~= old(out)@ + decimal(n as nat));
        } else {
            assert(old(out)@ + decimal((n / 10) as nat) + seq![(48 + n % 10) as u8] =~= old(out)@
                + decimal(n as nat));
        }
    }
}

/// Decimal digits are the ASCII bytes of `0` to `9`.
pub proof fn lemma_decimal_digits(n: nat)
    ensures
        forall|i: int| 0 <= i < decimal(n).len() ==> 48 <= #[trigger] decimal(n)[i] <= 57,
    decreases n,
{
    if n >= 10 {
        lemma_decimal_digits(n / 10);
        let d = decimal(n / 10);
        assert forall|i: int| 0 <= i < decimal(n).len() implies 48 <= #[trigger] decimal(n)[i]
            <= 57 by {
            if i < d.len() {
                assert(decimal(n)[i] == d[i]);
            }
        }
    }
}

/// The UTF-8 encoding of the decimal digits of `n` is those digits as bytes.
pub proof fn lemma_decimal_chars(n: nat)
    ensures
        encode_utf8(decimal_chars(n)) == decimal(n),
        valid_utf8(decimal(n)),
        decode_utf8(decimal(n)) == decimal_chars(n),
        is_ascii_chars(decimal_chars(n)),
{
    lemma_decimal_digits(n);
    let cs = decimal_chars(n);
    assert(is_ascii_chars(cs));
    is_ascii_chars_encode_utf8(cs);
    assert(encode_utf8(cs) =~= decimal(n));
    encode_utf8_valid_utf8(cs);
    encode_utf8_decode_utf8(cs);
}

/// The decimal digits of `n`.
pub fn decimal_string(n: u64) -> (r: String)
    ensures
        r@ == decimal_chars(n as nat),
{
    let mut digits: Vec<u8> = Vec::new();
    push_decimal(n, &mut digits);
    proof {
        lemma_decimal_chars(n as nat);
        assert(digits@ =~= decimal(n as nat));
    }
    match string_from_utf8(digits) {
        Some(s) => s,
        None => {
            assert(false);
            String::new()
        },
    }
}

/// The first `n` bytes of the UTF-8 encoding of `s`, and the rest, as text.
pub open spec fn split_at_byte(s: Seq<char>, n: int) -> (Seq<char>, Seq<char>) {
    (decode_utf8(encode_utf8(s).take(n)), decode_utf8(encode_utf8(s).skip(n)))
}

/// `base` joined with `component` as `Path::join` joins them on Unix: an
/// absolute component replaces `base`, else a `/` goes between them unless
/// `base` is empty or already ends with one.
pub open spec fn path_join(base: Seq<char>, component: Seq<char>) -> Seq<char> {
    if component.len() > 0 && component[0] == '/' {
        component
    } else if base.len() > 0 && base.last() != '/' {
        base + seq!['/'] + component
    } else {
        base + component
    }
}

/// `base` joined with `component`, as `Path::join` joins them on Unix.
pub fn join_path(base: &str, component: &str) -> (r: String)
    ensures
        r@ == path_join(base@, component@),
{
    let b = chars_of(base);
    let c = chars_of(component);
    if c.len() > 0 && c[0] == '/' {
        return String::from_str(component);
    }
    let mut r = String::from_str(base);
    if b.len() > 0 && b[b.len() - 1] != '/' {
        r.append("/");
        proof {
            reveal_strlit("/");
        }
    }
    r.append(component);
    r
}


/// Lexicographic order on byte strings, the order of `str::cmp`.
pub open spec fn lex_le(a: Seq<u8>, b: Seq<u8>) -> bool
    decreases a.len(),
{
    if a.len() == 0 {
        true
    } else if b.len() == 0 {
        false
    } else if a[0] != b[0] {
        a[0] < b[0]
    } else {
        lex_le(a.drop_first(), b.drop_first())
    }
}

/// Any two byte strings are ordered one way or the other.
pub proof fn lemma_lex_le_total(a: Seq<u8>, b: Seq<u8>)
    ensures
        lex_le(a, b) || lex_le(b, a),
    decreases a.len(),
{
    if a.len() > 0 && b.len() > 0 && a[0] == b[0] {
        lemma_lex_le_total(a.drop_first(), b.drop_first());
    }
}

/// The lexicographic order is transitive.
pub proof fn lemma_lex_le_transitive(a: Seq<u8>, b: Seq<u8>, c: Seq<u8>)
    requires
        lex_le(a, b),
        lex_le(b, c),
    ensures
        lex_le(a, c),
    decreases a.len(),
{
    if a.len() > 0 && b.len() > 0 && c.len() > 0 && a[0] == b[0] && b[0] == c[0] {
        lemma_lex_le_transitive(a.drop_first(), b.drop_first(), c.drop_first());
    }
}

/// Byte strings ordered each way are equal.
pub proof fn lemma_lex_le_antisymmetric(a: Seq<u8>, b: Seq<u8>)
    requires
        lex_le(a, b),
        lex_le(b, a),
    ensures
        a == b,
    decreases a.len(),
{
    if a.len() > 0 && b.len() > 0 {
        lemma_lex_le_antisymmetric(a.drop_first(), b.drop_first());
        assert(a =~= seq![a[0]] + a.drop_first());
        assert(b =~= seq![b[0]] + b.drop_first());
    } else {
        assert(a.len() == 0 && b.len() == 0);
        assert(a =~= b);
    }
}

/// Whether the text `a` comes strictly before the text `b` in the order of
/// `str::cmp`: the lexicographic order of their UTF-8 bytes.
pub open spec fn text_lt(a: Seq<char>, b: Seq<char>) -> bool {
    lex_le(encode_utf8(a), encode_utf8(b)) && a != b
}

/// The order of texts is a strict total order.
pub proof fn lemma_text_lt_order(a: Seq<char>, b: Seq<char>, c: Seq<char>)
    ensures
        !text_lt(a, a),
        text_lt(a, b) ==> !text_lt(b, a),
        a != b ==> text_lt(a, b) || text_lt(b, a),
        text_lt(a, b) && text_lt(b, c) ==> text_lt(a, c),
{
    encode_utf8_decode_utf8(a);
    encode_utf8_decode_utf8(b);
    encode_utf8_decode_utf8(c);
    lemma_lex_le_total(encode_utf8(a), encode_utf8(b));
    if lex_le(encode_utf8(a), encode_utf8(b)) && lex_le(encode_utf8(b), encode_utf8(a)) {
        lemma_lex_le_antisymmetric(encode_utf8(a), encode_utf8(b));
    }
    if text_lt(a, b) && text_lt(b, c) {
        lemma_lex_le_transitive(encode_utf8(a), encode_utf8(b), encode_utf8(c));
        if a == c {
            lemma_lex_le_antisymmetric(encode_utf8(a), encode_utf8(b));
        }
    }
}

/// Whether the text `a` comes strictly before the text `b`, as `str::cmp`
/// orders them.
pub fn str_lt(a: &str, b: &str) -> (r: bool)
    ensures
        r == text_lt(a@, b@),
{
    bytes_le(a.as_bytes(), b.as_bytes()) && !str_eq(a, b)
}

/// Whether `a` comes before `b` or equals it in lexicographic order.
pub fn bytes_le(a: &[u8], b: &[u8]) -> (r: bool)
    ensures
        r == lex_le(a@, b@),
{
    let mut i: usize = 0;
    assert(a@.skip(0) =~= a@);
    assert(b@.skip(0) =~= b@);
    while i < a.len() && i < b.len() && a[i] == b[i]
        invariant
            i <= a@.len(),
            i <= b@.len(),
            lex_le(a@, b@) == lex_le(a@.skip(i as int), b@.skip(i as int)),
        decreases a.len() - i,
    {
        proof {
            let sa = a@.skip(i as int);
            let sb = b@.skip(i as int);
            assert(sa.drop_first() =~= a@.skip(i + 1));
            assert(sb.drop_first() =~= b@.skip(i + 1));
        }
        i = i + 1;
    }
    if i == a.len() {
        true
    } else if i == b.len() {
        false
    } else {
        a[i] < b[i]
    }
}


proof fn lemma_scalar_bytes_not_ascii(s: u32, b: u32)
    requires
        b < 128,
        s != b,
    ensures
        s <= 0x7F ==> (s & 0x7F) as u8 != b as u8,
        (0xC0 | ((s >> 6) & 0x1F) as u8) != b as u8,
        (0xE0 | ((s >> 12) & 0x0F) as u8) != b as u8,
        (0xF0 | ((s >> 18) & 0x7) as u8) != b as u8,
        (0x80 | (s & 0x3F) as u8) != b as u8,
        (0x80 | ((s >> 6) & 0x3F) as u8) != b as u8,
        (0x80 | ((s >> 12) & 0x3F) as u8) != b as u8,
{
    assert(s <= 0x7F ==> (s & 0x7F) as u8 != b as u8) by (bit_vector)
        requires
            b < 128,
            s != b,
    ;
    assert((0xC0 | ((s >> 6) & 0x1F) as u8) != b as u8) by (bit_vector)
        requires
            b < 128,
    ;
    assert((0xE0 | ((s >> 12) & 0x0F) as u8) != b as u8) by (bit_vector)
        requires
            b < 128,
    ;
    assert((0xF0 | ((s >> 18) & 0x7) as u8) != b as u8) by (bit_vector)
        requires
            b < 128,
    ;
    assert((0x80 | (s & 0x3F) as u8) != b as u8) by (bit_vector)
        requires
            b < 128,
    ;
    assert((0x80 | ((s >> 6) & 0x3F) as u8) != b as u8) by (bit_vector)
        requires
            b < 128,
    ;
    assert((0x80 | ((s >> 12) & 0x3F) as u8) != b as u8) by (bit_vector)
        requires
            b < 128,
    ;
}

/// The UTF-8 encoding of text without the ASCII character `c` has no byte `c`.
pub proof fn lemma_encode_utf8_ascii_absent(cs: Seq<char>, c: char)
    requires
        (c as u32) < 128,
        forall|i: int| 0 <= i < cs.len() ==> cs[i] != c,
    ensures
        forall|i: int| 0 <= i < encode_utf8(cs).len() ==> encode_utf8(cs)[i] != c as u8,
    decreases cs.len(),
{
    if cs.len() > 0 {
        let rest = cs.drop_first();
        lemma_encode_utf8_ascii_absent(rest, c);
        let s = cs[0] as u32;
        char_is_scalar(cs[0]);
        assert(s != c as u32) by {
            char_u32_cast(cs[0], s);
            char_u32_cast(c, c as u32);
        }
        lemma_scalar_bytes_not_ascii(s, c as u32);
        assert((c as u32) as u8 == c as u8);
        let e = encode_scalar(s);
        assert forall|i: int| 0 <= i < e.len() implies e[i] != c as u8 by {}
        assert forall|i: int| 0 <= i < encode_utf8(cs).len() implies encode_utf8(cs)[i] != c as u8 by {
            if i < e.len() {
                assert(encode_utf8(cs)[i] == e[i]);
            } else {
                assert(encode_utf8(cs)[i] == encode_utf8(rest)[i - e.len()]);
            }
        }
    }
}


/// A line ended by `'\n'` is split off first.
pub proof fn lemma_split_lines_cons(x: Seq<char>, y: Seq<char>)
    requires
        forall|k: int| 0 <= k < x.len() ==> x[k] != '\n',
    ensures
        split_lines(x + seq!['\n'] + y) == seq![strip_cr(x)] + split_lines(y),
{
    let s = x + seq!['\n'] + y;
    assert(s[x.len() as int] == '\n');
    assert forall|k: int| 0 <= k < x.len() implies s[k] != '\n' by {
        assert(s[k] == x[k]);
    }
    lemma_index_of_at(s, '\n', x.len() as int);
    assert(s.take(x.len() as int) =~= x);
    assert(s.skip(x.len() as int + 1) =~= y);
}

/// Text without a `'\n'` is one line.
pub proof fn lemma_split_lines_single(x: Seq<char>)
    requires
        x.len() > 0,
        forall|k: int| 0 <= k < x.len() ==> x[k] != '\n',
    ensures
        split_lines(x) == seq![x],
{
    lemma_index_of(x, '\n');
    if index_of(x, '\n') is Some {
        let i = index_of(x, '\n')->0;
        assert(x[i] == '\n');
    }
}

/// The code of `c` lowercased, where the lowercase form is ASCII: the ASCII
/// upper case letters, and the Kelvin sign (U+212A), which lowercases to
/// `k`. Every other character whose lowercase form holds an ASCII letter
/// lowercases to more than one character (U+0130 gives `i` and U+0307), so
/// it is left as it is here, and never equals an ASCII letter.
pub open spec fn ascii_lower(c: char) -> int {
    if 'A' <= c <= 'Z' {
        (c as int) + 32
    } else if c == '\u{212A}' {
        107
    } else {
        c as int
    }
}

/// Whether `a` and `b` are equal once the characters whose lowercase form is
/// one ASCII character are lowercased. Where `b` is made of lowercase ASCII
/// letters and `-`, this is whether `a.to_lowercase()` equals `b`.
pub open spec fn eq_ignore_ascii_case(a: Seq<char>, b: Seq<char>) -> bool {
    a.len() == b.len() && forall|i: int| 0 <= i < a.len() ==> ascii_lower(a[i]) == ascii_lower(b[i])
}

/// The code of `c` lowercased, where the lowercase form is ASCII.
fn lower_code(c: char) -> (r: u32)
    ensures
        r == ascii_lower(c),
{
    if 'A' <= c && c <= 'Z' {
        (c as u32) + 32
    } else if c == '\u{212A}' {
        107
    } else {
        c as u32
    }
}

/// Whether `a` and `b` are equal once the characters whose lowercase form is
/// one ASCII character are lowercased.
pub fn eq_ascii_case_insensitive(a: &str, b: &str) -> (r: bool)
    ensures
        r == eq_ignore_ascii_case(a@, b@),
{
    let x = chars_of(a);
    let y = chars_of(b);
    if x.len() != y.len() {
        return false;
    }
    let mut i: usize = 0;
    while i < x.len()
        invariant
            x@ == a@,
            y@ == b@,
            x@.len() == y@.len(),
            i <= x@.len(),
            forall|k: int| 0 <= k < i ==> ascii_lower(a@[k]) == ascii_lower(b@[k]),
        decreases x.len() - i,
    {
        if lower_code(x[i]) != lower_code(y[i]) {
            return false;
        }
        i = i + 1;
    }
    true
}

/// Byte strings are ordered by their raw byte values: where `a` and `b`
/// agree before position `k` and differ at it, `a` comes first exactly when
/// its byte there is the smaller number; and a string comes before every
/// string that extends it.
pub proof fn law_lex_le_is_byte_order(a: Seq<u8>, b: Seq<u8>, k: int)
    requires
        0 <= k <= a.len(),
        k <= b.len(),
        forall|i: int| 0 <= i < k ==> a[i] == b[i],
    ensures
        k < a.len() && k < b.len() && a[k] != b[k] ==> (lex_le(a, b) <==> (a[k] as int) < (
        b[k] as int)),
        k == a.len() ==> lex_le(a, b),
        k == b.len() && k < a.len() ==> !lex_le(a, b),
    decreases k,
{
    if k > 0 {
        law_lex_le_is_byte_order(a.drop_first(), b.drop_first(), k - 1);
        assert(a[0] == b[0]);
    }
}

/// `str::lines` splits at `"\r\n"` as at `"\n"`: text without a line feed,
/// followed by `"\r\n"`, is one line without the carriage return; followed
/// by `"\n"`, it is one line as it stands unless it ends in a carriage
/// return. The rest is split on its own.
pub proof fn law_lines_split_at_line_ends(x: Seq<char>, y: Seq<char>)
    requires
        forall|k: int| 0 <= k < x.len() ==> x[k] != '\n',
    ensures
        split_lines(x + seq!['\r', '\n'] + y) == seq![x] + split_lines(y),
        x.len() == 0 || x.last() != '\r' ==> split_lines(x + seq!['\n'] + y) == seq![x]
            + split_lines(y),
{
    let xr = x.push('\r');
    assert(x + seq!['\r', '\n'] + y =~= xr + seq!['\n'] + y);
    assert forall|k: int| 0 <= k < xr.len() implies xr[k] != '\n' by {
        if k < x.len() {
            assert(xr[k] == x[k]);
        }
    }
    lemma_split_lines_cons(xr, y);
    assert(xr.drop_last() =~= x);
    lemma_split_lines_cons(x, y);
}

/// No line that `str::lines` gives holds a line feed.
pub proof fn law_lines_hold_no_line_feed(s: Seq<char>)
    ensures
        forall|i: int| 0 <= i < split_lines(s).len() ==> !(#[trigger] split_lines(s)[i]).contains('\n'),
    decreases s.len(),
{
    if s.len() > 0 {
        lemma_index_of(s, '\n');
        match index_of(s, '\n') {
            Some(i) => {
                let l = strip_cr(s.take(i));
                assert(!l.contains('\n')) by {
                    if l.contains('\n') {
                        let j = choose|j: int| 0 <= j < l.len() && l[j] == '\n';
                        assert(s[j] == '\n');
                    }
                }
                law_lines_hold_no_line_feed(s.skip(i + 1));
                let rest = split_lines(s.skip(i + 1));
                assert forall|k: int| 0 <= k < split_lines(s).len() implies !(#[trigger] split_lines(s)[k]).contains('\n') by {
                    if k > 0 {
                        assert(split_lines(s)[k] == rest[k - 1]);
                    }
                }
            },
            None => {},
        }
    }
}

} // verus!
