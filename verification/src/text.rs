//! Text and byte-string basics: views of collections, the byte order of
//! strings, character classes and trimming.
use vstd::prelude::*;
use vstd::string::*;
use vstd::utf8::*;

verus! {

/// The mathematical value of a string: its characters.
pub type Text = Seq<char>;

/// The views of the elements of a sequence.
pub open spec fn views<T: View>(s: Seq<T>) -> Seq<T::V> {
    Seq::new(s.len(), |i: int| s[i]@)
}

/// The view of the value in an option.
pub open spec fn opt_view<T: View>(o: Option<T>) -> Option<T::V> {
    match o {
        Some(x) => Some(x@),
        None => None,
    }
}

pub proof fn lemma_views_push<T: View>(s: Seq<T>, x: T)
    ensures
        views(s.push(x)) == views(s).push(x@),
{
    assert(views(s.push(x)) =~= views(s).push(x@));
}

/// `String` values add their character when one is pushed.
pub assume_specification[ String::push ](s: &mut String, c: char)
    ensures
        final(s)@ == old(s)@.push(c),
;

/// Lexicographic order of byte strings: at the first difference the smaller
/// byte decides, and a proper prefix comes first.
pub open spec fn bytes_lt(a: Seq<u8>, b: Seq<u8>) -> bool
    decreases a.len(),
{
    if b.len() == 0 {
        false
    } else if a.len() == 0 {
        true
    } else if a[0] != b[0] {
        a[0] < b[0]
    } else {
        bytes_lt(a.drop_first(), b.drop_first())
    }
}

/// Order of strings: that of their UTF-8 bytes.
pub open spec fn text_lt(a: Text, b: Text) -> bool {
    bytes_lt(encode_utf8(a), encode_utf8(b))
}

pub proof fn lemma_bytes_lt_irreflexive(a: Seq<u8>)
    ensures
        !bytes_lt(a, a),
    decreases a.len(),
{
    if a.len() > 0 {
        lemma_bytes_lt_irreflexive(a.drop_first());
    }
}

pub proof fn lemma_bytes_lt_transitive(a: Seq<u8>, b: Seq<u8>, c: Seq<u8>)
    requires
        bytes_lt(a, b),
        bytes_lt(b, c),
    ensures
        bytes_lt(a, c),
    decreases a.len(),
{
    if a.len() > 0 && a[0] == b[0] && b[0] == c[0] {
        lemma_bytes_lt_transitive(a.drop_first(), b.drop_first(), c.drop_first());
    }
}

pub proof fn lemma_bytes_lt_total(a: Seq<u8>, b: Seq<u8>)
    ensures
        a == b || bytes_lt(a, b) || bytes_lt(b, a),
    decreases a.len(),
{
    if a.len() == 0 && b.len() == 0 {
        assert(a =~= b);
    } else if a.len() > 0 && b.len() > 0 && a[0] == b[0] {
        lemma_bytes_lt_total(a.drop_first(), b.drop_first());
        if a.drop_first() == b.drop_first() {
            assert(a =~= seq![a[0]] + a.drop_first());
            assert(b =~= seq![b[0]] + b.drop_first());
        }
    }
}

/// Two strings with the same bytes are the same string.
pub proof fn lemma_utf8_injective(a: Text, b: Text)
    requires
        encode_utf8(a) == encode_utf8(b),
    ensures
        a == b,
{
    encode_utf8_decode_utf8(a);
    encode_utf8_decode_utf8(b);
}

/// The order of strings is a strict total order.
pub proof fn lemma_text_lt_order(a: Text, b: Text)
    ensures
        !text_lt(a, a),
        !(text_lt(a, b) && text_lt(b, a)),
        a == b || text_lt(a, b) || text_lt(b, a),
{
    lemma_bytes_lt_irreflexive(encode_utf8(a));
    lemma_bytes_lt_total(encode_utf8(a), encode_utf8(b));
    if text_lt(a, b) && text_lt(b, a) {
        lemma_bytes_lt_transitive(encode_utf8(a), encode_utf8(b), encode_utf8(a));
    }
    if encode_utf8(a) == encode_utf8(b) {
        lemma_utf8_injective(a, b);
    }
}

/// Whether `a` comes before `b` in the lexicographic order of bytes.
pub fn bytes_less(a: &[u8], b: &[u8]) -> (less: bool)
    ensures
        less == bytes_lt(a@, b@),
{
    let mut i: usize = 0;
    assert(a@.skip(0) =~= a@);
    assert(b@.skip(0) =~= b@);
    while i < a.len() && i < b.len()
        invariant
            i <= a.len(),
            i <= b.len(),
            bytes_lt(a@, b@) == bytes_lt(a@.skip(i as int), b@.skip(i as int)),
        decreases a.len() - i,
    {
        if a[i] != b[i] {
            return a[i] < b[i];
        }
        assert(a@.skip(i as int).drop_first() =~= a@.skip(i + 1));
        assert(b@.skip(i as int).drop_first() =~= b@.skip(i + 1));
        i = i + 1;
    }
    i < b.len()
}

/// Whether two strings are the same.
pub fn same_text(a: &str, b: &str) -> (same: bool)
    ensures
        same == (a@ == b@),
{
    let x = a.as_bytes();
    let y = b.as_bytes();
    if x.len() != y.len() {
        return false;
    }
    let mut i: usize = 0;
    while i < x.len()
        invariant
            x@ == encode_utf8(a@),
            y@ == encode_utf8(b@),
            x@.len() == y@.len(),
            i <= x@.len(),
            forall|k: int| 0 <= k < i ==> x@[k] == y@[k],
        decreases x.len() - i,
    {
        if x[i] != y[i] {
            return false;
        }
        i = i + 1;
    }
    proof {
        assert(x@ =~= y@);
        lemma_utf8_injective(a@, b@);
    }
    true
}

/// A copy of a list of strings.
pub fn clone_texts(list: &Vec<String>) -> (copy: Vec<String>)
    ensures
        copy@ == list@,
{
    let mut copy: Vec<String> = Vec::new();
    let mut i: usize = 0;
    while i < list.len()
        invariant
            i <= list@.len(),
            copy@ == list@.take(i as int),
        decreases list.len() - i,
    {
        copy.push(list[i].clone());
        assert(list@.take(i + 1) =~= list@.take(i as int).push(list@[i as int]));
        i = i + 1;
    }
    assert(list@.take(i as int) =~= list@);
    copy
}

/// The characters of a string.
pub fn chars_of(s: &str) -> (chars: Vec<char>)
    ensures
        chars@ == s@,
{
    let mut chars: Vec<char> = Vec::new();
    for c in iter: s.chars()
        invariant
            chars@ == iter.seq().take(iter.index() as int),
            iter.seq() == s@,
    {
        chars.push(c);
        assert(s@.take(iter.index() + 1) =~= s@.take(iter.index() as int).push(c));
    }
    assert(s@.take(s@.len() as int) =~= s@);
    chars
}

/// The string made of a range of characters.
pub fn string_of(chars: &Vec<char>, from: usize, to: usize) -> (s: String)
    requires
        from <= to <= chars@.len(),
    ensures
        s@ == chars@.subrange(from as int, to as int),
{
    let mut s = String::new();
    let mut i: usize = from;
    assert(chars@.subrange(from as int, from as int) =~= Seq::empty());
    while i < to
        invariant
            from <= i <= to <= chars@.len(),
            s@ == chars@.subrange(from as int, i as int),
        decreases to - i,
    {
        s.push(chars[i]);
        assert(chars@.subrange(from as int, i + 1) =~= chars@.subrange(from as int, i as int).push(chars@[i as int]));
        i = i + 1;
    }
    s
}

/// The characters with Unicode's `White_Space` property.
pub open spec fn is_white(c: char) -> bool {
    ||| 0x09 <= c as u32 <= 0x0d
    ||| c as u32 == 0x20
    ||| c as u32 == 0x85
    ||| c as u32 == 0xa0
    ||| c as u32 == 0x1680
    ||| 0x2000 <= c as u32 <= 0x200a
    ||| c as u32 == 0x2028
    ||| c as u32 == 0x2029
    ||| c as u32 == 0x202f
    ||| c as u32 == 0x205f
    ||| c as u32 == 0x3000
}

/// Whether a character is white space.
pub fn white(c: char) -> (is: bool)
    ensures
        is == is_white(c),
{
    let n: u32 = c as u32;
    (0x09 <= n && n <= 0x0d) || n == 0x20 || n == 0x85 || n == 0xa0 || n == 0x1680 || (0x2000 <= n && n <= 0x200a)
        || n == 0x2028 || n == 0x2029 || n == 0x202f || n == 0x205f || n == 0x3000
}

/// Whether a text holds nothing but white space.
pub open spec fn is_blank(s: Text) -> bool {
    forall|i: int| 0 <= i < s.len() ==> is_white(#[trigger] s[i])
}

/// Whether a string holds nothing but white space.
pub fn blank(s: &str) -> (is: bool)
    ensures
        is == is_blank(s@),
{
    let chars = chars_of(s);
    let mut i: usize = 0;
    while i < chars.len()
        invariant
            chars@ == s@,
            i <= chars@.len(),
            forall|k: int| 0 <= k < i ==> is_white(#[trigger] chars@[k]),
        decreases chars.len() - i,
    {
        if !white(chars[i]) {
            return false;
        }
        i = i + 1;
    }
    true
}

/// A text without the white space at its start.
pub open spec fn trim_start(s: Text) -> Text
    decreases s.len(),
{
    if s.len() > 0 && is_white(s[0]) {
        trim_start(s.drop_first())
    } else {
        s
    }
}

/// A text without the white space at its end.
pub open spec fn trim_end(s: Text) -> Text
    decreases s.len(),
{
    if s.len() > 0 && is_white(s.last()) {
        trim_end(s.drop_last())
    } else {
        s
    }
}

/// A string without the white space at its start and end.
pub fn trimmed(s: &str) -> (t: String)
    ensures
        t@ == trim_end(trim_start(s@)),
{
    let chars = chars_of(s);
    let n: usize = chars.len();
    let mut a: usize = 0;
    assert(s@.subrange(0, n as int) =~= s@);
    while a < n && white(chars[a])
        invariant
            chars@ == s@,
            n == chars@.len(),
            a <= n,
            trim_start(s@) == trim_start(s@.subrange(a as int, n as int)),
        decreases n - a,
    {
        assert(s@.subrange(a as int, n as int).drop_first() =~= s@.subrange(a + 1, n as int));
        a = a + 1;
    }
    let ghost rest = s@.subrange(a as int, n as int);
    let mut b: usize = n;
    while a < b && white(chars[b - 1])
        invariant
            chars@ == s@,
            n == chars@.len(),
            a <= b <= n,
            rest == s@.subrange(a as int, n as int),
            trim_end(rest) == trim_end(s@.subrange(a as int, b as int)),
        decreases b - a,
    {
        assert(s@.subrange(a as int, b as int).drop_last() =~= s@.subrange(a as int, b - 1));
        b = b - 1;
    }
    string_of(&chars, a, b)
}

/// Whether a character is an ASCII letter or digit, a hyphen or an
/// underscore.
pub open spec fn is_plain(c: char) -> bool {
    ||| 'a' <= c <= 'z'
    ||| 'A' <= c <= 'Z'
    ||| '0' <= c <= '9'
    ||| c == '-'
    ||| c == '_'
}

/// A text with every character that is not plain replaced by an underscore.
pub open spec fn sanitized(s: Text) -> Text {
    Seq::new(
        s.len(),
        |i: int|
            if is_plain(s[i]) {
                s[i]
            } else {
                '_'
            },
    )
}

/// A form of the string that is safe as a file name: every character other
/// than an ASCII letter or digit, `-` and `_` becomes `_`.
pub fn sanitize(s: &str) -> (t: String)
    ensures
        t@ == sanitized(s@),
{
    let chars = chars_of(s);
    let mut t = String::new();
    let mut i: usize = 0;
    assert(t@ =~= sanitized(s@).take(0));
    while i < chars.len()
        invariant
            chars@ == s@,
            i <= chars@.len(),
            t@ == sanitized(s@).take(i as int),
        decreases chars.len() - i,
    {
        let c = chars[i];
        let plain = ('a' <= c && c <= 'z') || ('A' <= c && c <= 'Z') || ('0' <= c && c <= '9') || c == '-' || c
            == '_';
        t.push(if plain { c } else { '_' });
        assert(sanitized(s@).take(i + 1) =~= sanitized(s@).take(i as int).push(sanitized(s@)[i as int]));
        i = i + 1;
    }
    assert(sanitized(s@).take(i as int) =~= sanitized(s@));
    t
}

/// A sanitized text holds plain characters only, one for each character of
/// `s`, and sanitizing it again changes nothing.
pub proof fn law_sanitized(s: Text)
    ensures
        sanitized(s).len() == s.len(),
        forall|i: int| 0 <= i < s.len() ==> is_plain(#[trigger] sanitized(s)[i]),
        forall|i: int| 0 <= i < s.len() && is_plain(s[i]) ==> #[trigger] sanitized(s)[i] == s[i],
        sanitized(sanitized(s)) == sanitized(s),
{
    assert(sanitized(sanitized(s)) =~= sanitized(s));
}

/// The texts one after another, with `sep` between each two.
pub open spec fn joined(list: Seq<Text>, sep: Text) -> Text
    decreases list.len(),
{
    if list.len() == 0 {
        Seq::empty()
    } else if list.len() == 1 {
        list[0]
    } else {
        joined(list.drop_last(), sep) + sep + list.last()
    }
}

/// The strings one after another, with `sep` between each two.
pub fn join_strings(list: &Vec<String>, sep: &str) -> (s: String)
    ensures
        s@ == joined(views(list@), sep@),
{
    let ghost texts = views(list@);
    let mut s = String::new();
    let mut i: usize = 0;
    assert(s@ =~= joined(texts.take(0), sep@));
    while i < list.len()
        invariant
            texts == views(list@),
            i <= texts.len(),
            s@ == joined(texts.take(i as int), sep@),
        decreases texts.len() - i,
    {
        if i > 0 {
            s.append(sep);
        }
        s.append(list[i].as_str());
        proof {
            let now = texts.take(i + 1);
            assert(now.drop_last() =~= texts.take(i as int));
            assert(now.last() == list@[i as int]@);
            if i == 0 {
                assert(s@ =~= now[0]);
            }
        }
        i = i + 1;
    }
    assert(texts.take(i as int) =~= texts);
    s
}

/// The length of a text in UTF-8.
pub open spec fn byte_len(s: Text) -> nat {
    encode_utf8(s).len()
}

/// The text of the first `n` bytes, or all of a shorter text.
pub open spec fn cut(s: Text, n: nat) -> Text {
    if byte_len(s) >= n {
        decode_utf8(encode_utf8(s).subrange(0, n as int))
    } else {
        s
    }
}

/// Whether the first `n` bytes, if there are as many, end with a character.
pub open spec fn can_cut(s: Text, n: nat) -> bool {
    byte_len(s) >= n ==> is_char_boundary(encode_utf8(s), n as int)
}

/// Whether the first `n` bytes, if there are as many, end with a character.
pub fn is_cuttable(s: &str, n: usize) -> (is: bool)
    ensures
        is == can_cut(s@, n as nat),
{
    s.as_bytes().len() < n || s.is_char_boundary(n)
}

/// The first `n` bytes of a string, or all of a shorter one.
pub fn cut_text(s: &str, n: usize) -> (t: String)
    requires
        can_cut(s@, n as nat),
    ensures
        t@ == cut(s@, n as nat),
{
    if s.as_bytes().len() >= n {
        let (head, _tail) = s.split_at(n);
        proof {
            encode_utf8_decode_utf8(head@);
        }
        String::from_str(head)
    } else {
        String::from_str(s)
    }
}

/// The first bytes of an ASCII text are its first characters.
pub proof fn law_ascii_cut(s: Text, n: nat)
    requires
        is_ascii_chars(s),
    ensures
        can_cut(s, n),
        n <= s.len() ==> cut(s, n) == s.take(n as int),
        n > s.len() ==> cut(s, n) == s,
{
    is_ascii_chars_encode_utf8(s);
    encode_utf8_valid_utf8(s);
    if n < s.len() {
        let bytes = encode_utf8(s);
        assert(bytes[n as int] == s[n as int] as u8);
        is_char_boundary_iff_not_is_continuation_byte(bytes, n as int);
    } else {
        is_char_boundary_start_end_of_seq(encode_utf8(s));
    }
    if n <= s.len() {
        let head = s.take(n as int);
        assert(is_ascii_chars(head));
        is_ascii_chars_encode_utf8(head);
        assert(encode_utf8(head) =~= encode_utf8(s).subrange(0, n as int)) by {
            assert forall|i: int| 0 <= i < n implies encode_utf8(head)[i] == encode_utf8(s)[i] by {
                assert(head[i] == s[i]);
            }
        }
        encode_utf8_decode_utf8(head);
    }
}

/// The decimal digits of a number.
pub open spec fn decimal(n: nat) -> Text
    decreases n,
{
    if n < 10 {
        seq![decimal_digit(n)]
    } else {
        decimal(n / 10).push(decimal_digit(n % 10))
    }
}

pub open spec fn decimal_digit(d: nat) -> char {
    ('0' as int + d) as char
}

/// The decimal digits of a number.
pub fn write_decimal(n: usize) -> (s: String)
    ensures
        s@ == decimal(n as nat),
    decreases n,
{
    let d: u8 = (n % 10) as u8;
    let c: char = (48u8 + d) as char;
    assert(c == decimal_digit(d as nat));
    let mut s = if n < 10 {
        String::new()
    } else {
        write_decimal(n / 10)
    };
    s.push(c);
    if n < 10 {
        assert(s@ =~= seq![c]);
    }
    s
}

/// Strings are ordered by their UTF-8 bytes: at the first difference, in place
/// `k`, the smaller byte decides, and a proper prefix comes first.
pub proof fn law_text_order(a: Text, b: Text, k: int)
    ensures
        ({
            let x = encode_utf8(a);
            let y = encode_utf8(b);
            &&& 0 <= k < x.len() && k < y.len() && x.take(k) == y.take(k) && x[k] < y[k] ==> text_lt(a, b) && !text_lt(
                b,
                a,
            )
            &&& x.len() < y.len() && y.take(x.len() as int) == x ==> text_lt(a, b) && !text_lt(b, a)
            &&& a == b ==> !text_lt(a, b)
        }),
{
    let x = encode_utf8(a);
    let y = encode_utf8(b);
    if 0 <= k < x.len() && k < y.len() && x.take(k) == y.take(k) && x[k] < y[k] {
        lemma_first_difference(x, y, k);
    }
    if x.len() < y.len() && y.take(x.len() as int) == x {
        lemma_proper_prefix(x, y);
    }
    lemma_text_lt_order(a, b);
}

proof fn lemma_first_difference(x: Seq<u8>, y: Seq<u8>, k: int)
    requires
        0 <= k < x.len(),
        k < y.len(),
        x.take(k) == y.take(k),
        x[k] < y[k],
    ensures
        bytes_lt(x, y),
    decreases k,
{
    if k > 0 {
        assert(x[0] == x.take(k)[0] && y[0] == y.take(k)[0]);
        assert(x.drop_first().take(k - 1) =~= x.take(k).drop_first());
        assert(y.drop_first().take(k - 1) =~= y.take(k).drop_first());
        lemma_first_difference(x.drop_first(), y.drop_first(), k - 1);
    }
}

proof fn lemma_proper_prefix(x: Seq<u8>, y: Seq<u8>)
    requires
        x.len() < y.len(),
        y.take(x.len() as int) == x,
    ensures
        bytes_lt(x, y),
    decreases x.len(),
{
    if x.len() > 0 {
        assert(y.take(x.len() as int)[0] == x[0]);
        assert(y.drop_first().take(x.len() - 1) =~= x.drop_first()) by {
            assert(y.take(x.len() as int).drop_first() =~= y.drop_first().take(x.len() - 1));
        }
        lemma_proper_prefix(x.drop_first(), y.drop_first());
    }
}

/// The white space of ASCII is the blank, the tab, the two line ends and the
/// two vertical spaces; beyond ASCII it is the spaces and line ends of Unicode.
pub proof fn law_white(c: char)
    ensures
        c <= '\u{7f}' ==> (is_white(c) <==> c == ' ' || c == '\t' || c == '\n' || c == '\r' || c == '\u{b}' || c
            == '\u{c}'),
        c > '\u{7f}' ==> (is_white(c) <==> {
            ||| c == '\u{85}'
            ||| c == '\u{a0}'
            ||| c == '\u{1680}'
            ||| '\u{2000}' <= c <= '\u{200a}'
            ||| c == '\u{2028}'
            ||| c == '\u{2029}'
            ||| c == '\u{202f}'
            ||| c == '\u{205f}'
            ||| c == '\u{3000}'
        }),
{
}

/// Trimming takes away white space at both ends of a text, all of it, and
/// nothing else.
pub proof fn law_trimmed(s: Text)
    ensures
        exists|i: int, j: int|
            #![trigger s.subrange(i, j)]
            {
                &&& 0 <= i <= j <= s.len()
                &&& trim_end(trim_start(s)) == s.subrange(i, j)
                &&& forall|k: int| 0 <= k < i ==> is_white(#[trigger] s[k])
                &&& forall|k: int| j <= k < s.len() ==> is_white(#[trigger] s[k])
                &&& i < j ==> !is_white(s[i]) && !is_white(s[j - 1])
            },
{
    let i = lemma_trim_start(s);
    let rest = trim_start(s);
    let n = lemma_trim_end(rest);
    let j = i + n;
    assert(trim_end(rest) =~= s.subrange(i, j));
    assert forall|k: int| j <= k < s.len() implies is_white(#[trigger] s[k]) by {
        assert(is_white(rest[k - i]));
    }
    if i < j {
        assert(s[i] == rest[0] && s[j - 1] == rest[n - 1]);
    }
}

proof fn lemma_trim_start(s: Text) -> (i: int)
    ensures
        0 <= i <= s.len(),
        trim_start(s) == s.skip(i),
        forall|k: int| 0 <= k < i ==> is_white(#[trigger] s[k]),
        i < s.len() ==> !is_white(s[i]),
    decreases s.len(),
{
    if s.len() > 0 && is_white(s[0]) {
        let i = lemma_trim_start(s.drop_first());
        assert(s.drop_first().skip(i) =~= s.skip(i + 1));
        assert forall|k: int| 0 <= k < i + 1 implies is_white(#[trigger] s[k]) by {
            if k > 0 {
                assert(is_white(s.drop_first()[k - 1]));
            }
        }
        i + 1
    } else {
        assert(s.skip(0) =~= s);
        0
    }
}

proof fn lemma_trim_end(s: Text) -> (n: int)
    ensures
        0 <= n <= s.len(),
        trim_end(s) == s.take(n),
        forall|k: int| n <= k < s.len() ==> is_white(#[trigger] s[k]),
        n > 0 ==> !is_white(s[n - 1]),
    decreases s.len(),
{
    if s.len() > 0 && is_white(s.last()) {
        let n = lemma_trim_end(s.drop_last());
        assert(s.drop_last().take(n) =~= s.take(n));
        assert forall|k: int| n <= k < s.len() implies is_white(#[trigger] s[k]) by {
            if k < s.len() - 1 {
                assert(is_white(s.drop_last()[k]));
            }
        }
        n
    } else {
        assert(s.take(s.len() as int) =~= s);
        s.len() as int
    }
}

/// A text is blank just where trimming leaves nothing of it.
pub proof fn law_blank(s: Text)
    ensures
        is_blank(s) <==> trim_end(trim_start(s)).len() == 0,
        s.len() == 0 ==> is_blank(s),
{
    let i = lemma_trim_start(s);
    let rest = trim_start(s);
    let n = lemma_trim_end(rest);
    if is_blank(s) && i < s.len() {
        assert(is_white(s[i]));
    }
    if n == 0 && i < s.len() {
        assert(is_white(rest[0]));
    }
}

/// Sanitizing keeps ASCII letters and digits, hyphens and underscores in their
/// places, and puts an underscore in place of every other character.
pub proof fn law_sanitized_chars(s: Text, i: int)
    requires
        0 <= i < s.len(),
    ensures
        'a' <= s[i] <= 'z' || 'A' <= s[i] <= 'Z' || '0' <= s[i] <= '9' || s[i] == '-' || s[i] == '_' ==> sanitized(
            s,
        )[i] == s[i],
        !('a' <= s[i] <= 'z' || 'A' <= s[i] <= 'Z' || '0' <= s[i] <= '9' || s[i] == '-' || s[i] == '_') ==> sanitized(
            s,
        )[i] == '_',
{
}

/// Joined texts hold the separator between each two neighbours and nowhere
/// else.
pub proof fn law_joined(a: Seq<Text>, b: Seq<Text>, x: Text, sep: Text)
    ensures
        joined(Seq::empty(), sep).len() == 0,
        joined(seq![x], sep) == x,
        a.len() > 0 && b.len() > 0 ==> joined(a + b, sep) == joined(a, sep) + sep + joined(b, sep),
    decreases b.len(),
{
    if a.len() > 0 && b.len() > 0 {
        assert((a + b).drop_last() =~= a + b.drop_last());
        assert((a + b).last() == b.last());
        if b.len() == 1 {
            assert(a + b.drop_last() =~= a);
        } else {
            law_joined(a, b.drop_last(), x, sep);
            assert(joined(a + b, sep) =~= joined(a, sep) + sep + joined(b, sep));
        }
    }
}

/// A number is written in decimal digits, the last of which is what is left
/// over by tens and the others of which are the number of tens; the first digit
/// is no zero unless it is the only one.
pub proof fn law_decimal(n: nat)
    ensures
        decimal(n).len() > 0,
        forall|i: int| 0 <= i < decimal(n).len() ==> '0' <= #[trigger] decimal(n)[i] <= '9',
        decimal(n).last() as int == '0' as int + n % 10,
        n < 10 ==> decimal(n).len() == 1,
        n >= 10 ==> decimal(n).drop_last() == decimal(n / 10),
        n > 0 ==> decimal(n)[0] != '0',
    decreases n,
{
    if n >= 10 {
        law_decimal(n / 10);
        assert(decimal(n).drop_last() =~= decimal(n / 10));
        assert(decimal(n)[0] == decimal(n / 10)[0]);
    }
}

/// Different numbers are written differently.
pub proof fn law_decimal_tells_apart(m: nat, n: nat)
    ensures
        decimal(m) == decimal(n) ==> m == n,
    decreases m,
{
    law_decimal(m);
    law_decimal(n);
    if decimal(m) == decimal(n) {
        if m >= 10 && n >= 10 {
            law_decimal_tells_apart(m / 10, n / 10);
        } else if m >= 10 {
            law_decimal(m / 10);
        } else if n >= 10 {
            law_decimal(n / 10);
        }
    }
}

/// Whether `part` stands somewhere in a text.
pub open spec fn tells(text: Text, part: Text) -> bool {
    exists|i: int| 0 <= i <= text.len() - part.len() && #[trigger] text.subrange(i, i + part.len()) == part
}

/// A text tells what stands between two other texts.
pub proof fn lemma_tells(before: Text, part: Text, after: Text)
    ensures
        tells(before + part + after, part),
        tells(before + part, part),
{
    let n = before.len() as int;
    assert((before + part + after).subrange(n, n + part.len()) =~= part);
    assert((before + part).subrange(n, n + part.len()) =~= part);
}

/// A text tells what a part of it tells.
pub proof fn lemma_tells_within(before: Text, middle: Text, after: Text, part: Text)
    requires
        tells(middle, part),
    ensures
        tells(before + middle + after, part),
        tells(before + middle, part),
{
    let i = choose|i: int| 0 <= i <= middle.len() - part.len() && #[trigger] middle.subrange(i, i + part.len()) == part;
    let n = before.len() as int;
    assert((before + middle + after).subrange(n + i, n + i + part.len()) =~= middle.subrange(i, i + part.len()));
    assert((before + middle).subrange(n + i, n + i + part.len()) =~= middle.subrange(i, i + part.len()));
}

} // verus!
