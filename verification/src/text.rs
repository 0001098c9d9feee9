//! Text: order, extensions, letter case, numbers, and the split of a label into lines.
use vstd::prelude::*;

verus! {

broadcast use vstd::string::axiom_spec_iter;

/// The characters of a text.
pub fn chars_of(s: &str) -> (r: Vec<char>)
    ensures
        r@ == s@,
{
    let mut v: Vec<char> = Vec::new();
    for c in it: s.chars()
        invariant
            it.seq() == s@,
            v@ == s@.take(it.index() as int),
    {
        v.push(c);
    }
    v
}

/// Whether `a` comes before `b`: by the first character in which they differ, a shorter text
/// before its continuations.
pub open spec fn precedes(a: Seq<char>, b: Seq<char>) -> bool
    decreases a.len(),
{
    if b.len() == 0 {
        false
    } else if a.len() == 0 {
        true
    } else if a[0] == b[0] {
        precedes(a.skip(1), b.skip(1))
    } else {
        a[0] < b[0]
    }
}

/// Whether the text `a` comes before `b`.
pub fn text_before(a: &Vec<char>, b: &Vec<char>) -> (r: bool)
    ensures
        r == precedes(a@, b@),
{
    let mut i: usize = 0;
    proof {
        assert(a@.skip(0) =~= a@);
        assert(b@.skip(0) =~= b@);
    }
    while i < a.len() && i < b.len() && a[i] == b[i]
        invariant
            i <= a@.len(),
            i <= b@.len(),
            precedes(a@, b@) == precedes(a@.skip(i as int), b@.skip(i as int)),
        decreases a@.len() - i,
    {
        proof {
            assert(a@.skip(i as int).skip(1) =~= a@.skip(i + 1));
            assert(b@.skip(i as int).skip(1) =~= b@.skip(i + 1));
        }
        i = i + 1;
    }
    if i >= b.len() {
        false
    } else if i >= a.len() {
        true
    } else {
        a[i] < b[i]
    }
}

/// No text comes before itself.
pub proof fn lemma_precedes_irreflexive(a: Seq<char>)
    ensures
        !precedes(a, a),
    decreases a.len(),
{
    if a.len() > 0 {
        lemma_precedes_irreflexive(a.skip(1));
    }
}

/// Of two different texts one comes before the other.
pub proof fn lemma_precedes_total(a: Seq<char>, b: Seq<char>)
    ensures
        precedes(a, b) || precedes(b, a) || a == b,
    decreases a.len(),
{
    if a.len() > 0 && b.len() > 0 {
        if a[0] == b[0] {
            lemma_precedes_total(a.skip(1), b.skip(1));
            if a.skip(1) == b.skip(1) {
                assert(a =~= seq![a[0]] + a.skip(1));
                assert(b =~= seq![b[0]] + b.skip(1));
            }
        }
    } else if a.len() == 0 && b.len() == 0 {
        assert(a =~= b);
    }
}

/// The order of texts is transitive.
pub proof fn lemma_precedes_transitive(a: Seq<char>, b: Seq<char>, c: Seq<char>)
    requires
        precedes(a, b),
        precedes(b, c),
    ensures
        precedes(a, c),
    decreases a.len(),
{
    if a.len() > 0 && a[0] == b[0] && b[0] == c[0] {
        lemma_precedes_transitive(a.skip(1), b.skip(1), c.skip(1));
    }
}

/// The lower-case form of a text.
pub uninterp spec fn lower_text(s: Seq<char>) -> Seq<char>;

/// `str::to_lowercase`: the lower-case form of a text, which depends on the text alone.
#[verifier::external_body]
fn to_lowercase(s: &str) -> (r: String)
    ensures
        r@ == lower_text(s@),
{
    s.to_lowercase()
}

/// The lower-case form of a text.
pub fn lowercase(s: &str) -> (r: String)
    ensures
        r@ == lower_text(s@),
{
    to_lowercase(s)
}

/// Whether a character is white space in Unicode.
pub open spec fn white(c: char) -> bool {
    let v = c as u32;
    ||| 0x9 <= v <= 0xd
    ||| v == 0x20
    ||| v == 0x85
    ||| v == 0xa0
    ||| v == 0x1680
    ||| 0x2000 <= v <= 0x200a
    ||| v == 0x2028
    ||| v == 0x2029
    ||| v == 0x202f
    ||| v == 0x205f
    ||| v == 0x3000
}

/// Whether a character is white space in Unicode.
pub fn is_white(c: char) -> (r: bool)
    ensures
        r == white(c),
{
    let v: u32 = c as u32;
    (0x9 <= v && v <= 0xd) || v == 0x20 || v == 0x85 || v == 0xa0 || v == 0x1680 || (0x2000 <= v && v <= 0x200a) || v
        == 0x2028 || v == 0x2029 || v == 0x202f || v == 0x205f || v == 0x3000
}

/// A text without the white space at its ends.
pub open spec fn trimmed_text(s: Seq<char>) -> Seq<char>
    decreases s.len(),
{
    if s.len() == 0 {
        s
    } else if white(s[0]) {
        trimmed_text(s.skip(1))
    } else if white(s.last()) {
        trimmed_text(s.drop_last())
    } else {
        s
    }
}

/// A text without the white space at its ends.
pub fn trimmed(s: &str) -> (r: String)
    ensures
        r@ == trimmed_text(s@),
{
    let v = chars_of(s);
    let n: usize = v.len();
    let mut from: usize = 0;
    assert(s@.subrange(0, n as int) =~= s@);
    while from < n && is_white(v[from])
        invariant
            from <= n,
            n == v@.len(),
            v@ == s@,
            trimmed_text(s@) == trimmed_text(s@.subrange(from as int, n as int)),
        decreases n - from,
    {
        assert(s@.subrange(from as int, n as int).skip(1) =~= s@.subrange(from + 1, n as int));
        from = from + 1;
    }
    let mut to: usize = n;
    while to > from && is_white(v[to - 1])
        invariant
            from <= to <= n,
            n == v@.len(),
            v@ == s@,
            from < n ==> !white(s@[from as int]),
            trimmed_text(s@) == trimmed_text(s@.subrange(from as int, to as int)),
        decreases to,
    {
        assert(s@.subrange(from as int, to as int).drop_last() =~= s@.subrange(from as int, to - 1));
        to = to - 1;
    }
    let r = s.substring_char(from, to);
    assert(trimmed_text(r@) == r@);
    r.to_owned()
}

/// Whether `r` is the part of `s` from `i` to `j`, and all that is cut off is white space.
pub open spec fn cut_to(s: Seq<char>, r: Seq<char>, i: int, j: int) -> bool {
    &&& 0 <= i <= j <= s.len()
    &&& r == s.subrange(i, j)
    &&& forall|k: int| 0 <= k < i ==> white(#[trigger] s[k])
    &&& forall|k: int| j <= k < s.len() ==> white(#[trigger] s[k])
}

/// What is left of a text neither begins nor ends with white space, and is part of it; all that is cut
/// off is white space.
pub proof fn lemma_trimmed(s: Seq<char>)
    ensures
        trimmed_text(s).len() > 0 ==> !white(trimmed_text(s)[0]) && !white(trimmed_text(s).last()),
        exists|i: int, j: int| cut_to(s, trimmed_text(s), i, j),
    decreases s.len(),
{
    let r = trimmed_text(s);
    if s.len() == 0 {
        assert(s.subrange(0, 0) =~= s);
        assert(cut_to(s, r, 0, 0));
    } else if white(s[0]) {
        lemma_trimmed(s.skip(1));
        let (i, j) = choose|i: int, j: int| cut_to(s.skip(1), r, i, j);
        lemma_cut_front(s, r, i, j);
    } else if white(s.last()) {
        lemma_trimmed(s.drop_last());
        let (i, j) = choose|i: int, j: int| cut_to(s.drop_last(), r, i, j);
        lemma_cut_back(s, r, i, j);
    } else {
        assert(s.subrange(0, s.len() as int) =~= s);
        assert(cut_to(s, r, 0, s.len() as int));
    }
}

proof fn lemma_cut_front(s: Seq<char>, r: Seq<char>, i: int, j: int)
    requires
        s.len() > 0,
        white(s[0]),
        cut_to(s.skip(1), r, i, j),
    ensures
        cut_to(s, r, i + 1, j + 1),
{
    let t = s.skip(1);
    assert(s.subrange(i + 1, j + 1) =~= t.subrange(i, j));
    assert forall|k: int| 0 <= k < i + 1 implies white(#[trigger] s[k]) by {
        if k > 0 {
            assert(white(t[k - 1]));
        }
    }
    assert forall|k: int| j + 1 <= k < s.len() implies white(#[trigger] s[k]) by {
        assert(white(t[k - 1]));
    }
}

proof fn lemma_cut_back(s: Seq<char>, r: Seq<char>, i: int, j: int)
    requires
        s.len() > 0,
        white(s.last()),
        cut_to(s.drop_last(), r, i, j),
    ensures
        cut_to(s, r, i, j),
{
    let t = s.drop_last();
    assert(s.subrange(i, j) =~= t.subrange(i, j));
    assert forall|k: int| 0 <= k < i implies white(#[trigger] s[k]) by {
        assert(white(t[k]));
    }
    assert forall|k: int| j <= k < s.len() implies white(#[trigger] s[k]) by {
        if k < t.len() {
            assert(white(t[k]));
        }
    }
}

/// A character with the ASCII letters brought to lower case.
pub open spec fn ascii_lower(c: char) -> char {
    if 'A' <= c && c <= 'Z' {
        ((c as u32 + 32) as u8) as char
    } else {
        c
    }
}

/// A character with the ASCII letters brought to lower case.
pub fn lower_char(c: char) -> (r: char)
    ensures
        r == ascii_lower(c),
{
    if 'A' <= c && c <= 'Z' {
        ((c as u32 + 32) as u8) as char
    } else {
        c
    }
}

/// Whether two texts are the same but for the case of ASCII letters.
pub open spec fn same_ascii(a: Seq<char>, b: Seq<char>) -> bool {
    &&& a.len() == b.len()
    &&& forall|i: int| 0 <= i < a.len() ==> ascii_lower(#[trigger] a[i]) == ascii_lower(b[i])
}

/// Whether two texts are the same but for the case of ASCII letters.
pub fn eq_ignore_ascii_case(a: &str, b: &str) -> (r: bool)
    ensures
        r == same_ascii(a@, b@),
{
    let x = chars_of(a);
    let y = chars_of(b);
    if x.len() != y.len() {
        return false;
    }
    let mut i: usize = 0;
    while i < x.len()
        invariant
            i <= x@.len(),
            x@ == a@,
            y@ == b@,
            x@.len() == y@.len(),
            forall|j: int| 0 <= j < i ==> ascii_lower(#[trigger] x@[j]) == ascii_lower(y@[j]),
        decreases x@.len() - i,
    {
        if lower_char(x[i]) != lower_char(y[i]) {
            assert(ascii_lower(a@[i as int]) != ascii_lower(b@[i as int]));
            return false;
        }
        i = i + 1;
    }
    true
}

/// Where the last dot of a text stands: the length of what is before it.
pub open spec fn last_dot(s: Seq<char>) -> Option<int>
    decreases s.len(),
{
    if s.len() == 0 {
        None
    } else if s.last() == '.' {
        Some(s.len() - 1)
    } else {
        last_dot(s.drop_last())
    }
}

/// The extension of a file name: what follows its last dot, unless the name is `..` or the last
/// dot is its first character.
pub open spec fn extension_of(name: Seq<char>) -> Option<Seq<char>> {
    if name == seq!['.', '.'] {
        None
    } else {
        match last_dot(name) {
            None => None,
            Some(i) => if i == 0 {
                None
            } else {
                Some(name.skip(i + 1))
            },
        }
    }
}

/// The extension of a file name.
pub fn extension(name: &str) -> (r: Option<String>)
    ensures
        match r {
            None => extension_of(name@) is None,
            Some(e) => extension_of(name@) == Some(e@),
        },
{
    let v = chars_of(name);
    let n: usize = v.len();
    if n == 2 && v[0] == '.' && v[1] == '.' {
        assert(name@ =~= seq!['.', '.']);
        return None;
    }
    let mut i: usize = n;
    assert(v@.take(n as int) =~= v@);
    while i > 0
        invariant
            i <= n,
            n == v@.len(),
            v@ == name@,
            last_dot(v@) == last_dot(v@.take(i as int)),
            v@ != seq!['.', '.'],
        decreases i,
    {
        assert(v@.take(i as int).drop_last() =~= v@.take(i - 1));
        if v[i - 1] == '.' {
            if i == 1 {
                return None;
            }
            let e = name.substring_char(i, n);
            assert(e@ =~= name@.skip(i as int));
            return Some(e.to_owned());
        }
        i = i - 1;
    }
    None
}

/// The lower-case extension of a file name with its dot, and nothing where there is none.
pub open spec fn dotted_extension(name: Seq<char>) -> Seq<char> {
    match extension_of(name) {
        None => Seq::empty(),
        Some(e) => seq!['.'] + lower_text(e),
    }
}

/// The lower-case extension of a file name with its dot, and nothing where there is none.
pub fn ext_of(name: &str) -> (r: String)
    ensures
        r@ == dotted_extension(name@),
{
    match extension(name) {
        None => String::new(),
        Some(e) => {
            proof {
                reveal_strlit(".");
            }
            let mut r = ".".to_owned();
            assert(r@ =~= seq!['.']);
            r.append(lowercase(e.as_str()).as_str());
            r
        },
    }
}

/// Whether an extension marks a download that is still being written.
pub open spec fn temp_extension(e: Seq<char>) -> bool {
    ||| same_ascii(e, "crdownload"@)
    ||| same_ascii(e, "part"@)
    ||| same_ascii(e, "partial"@)
    ||| same_ascii(e, "download"@)
    ||| same_ascii(e, "tmp"@)
}

/// Whether a file name is that of a download that is still being written.
pub open spec fn temp_name(name: Seq<char>) -> bool {
    match extension_of(name) {
        None => false,
        Some(e) => temp_extension(e),
    }
}

/// Whether a file name is that of a download that is still being written.
pub fn is_download_temp(name: &str) -> (r: bool)
    ensures
        r == temp_name(name@),
{
    match extension(name) {
        None => false,
        Some(e) => {
            let s = e.as_str();
            eq_ignore_ascii_case(s, "crdownload") || eq_ignore_ascii_case(s, "part")
                || eq_ignore_ascii_case(s, "partial") || eq_ignore_ascii_case(s, "download")
                || eq_ignore_ascii_case(s, "tmp")
        },
    }
}

/// The decimal digit `d`.
pub open spec fn digit(d: int) -> char {
    if d == 0 {
        '0'
    } else if d == 1 {
        '1'
    } else if d == 2 {
        '2'
    } else if d == 3 {
        '3'
    } else if d == 4 {
        '4'
    } else if d == 5 {
        '5'
    } else if d == 6 {
        '6'
    } else if d == 7 {
        '7'
    } else if d == 8 {
        '8'
    } else {
        '9'
    }
}

/// `n` in decimal digits.
pub open spec fn decimal_text(n: nat) -> Seq<char>
    decreases n,
{
    if n < 10 {
        seq![digit(n as int)]
    } else {
        decimal_text(n / 10).push(digit(n as int % 10))
    }
}

fn digit_str(d: u32) -> (r: &'static str)
    requires
        d < 10,
    ensures
        r@ == seq![digit(d as int)],
{
    proof {
        reveal_strlit("0");
        reveal_strlit("1");
        reveal_strlit("2");
        reveal_strlit("3");
        reveal_strlit("4");
        reveal_strlit("5");
        reveal_strlit("6");
        reveal_strlit("7");
        reveal_strlit("8");
        reveal_strlit("9");
    }
    let r = if d == 0 {
        "0"
    } else if d == 1 {
        "1"
    } else if d == 2 {
        "2"
    } else if d == 3 {
        "3"
    } else if d == 4 {
        "4"
    } else if d == 5 {
        "5"
    } else if d == 6 {
        "6"
    } else if d == 7 {
        "7"
    } else if d == 8 {
        "8"
    } else {
        "9"
    };
    assert(r@ =~= seq![digit(d as int)]);
    r
}

/// `n` in decimal digits.
pub fn decimal(n: u32) -> (r: String)
    ensures
        r@ == decimal_text(n as nat),
    decreases n,
{
    if n < 10 {
        digit_str(n).to_owned()
    } else {
        let mut r = decimal(n / 10);
        let ghost head = r@;
        r.append(digit_str(n % 10));
        assert(r@ =~= head.push(digit(n as int % 10)));
        r
    }
}

/// How many UTF-16 code units a character takes.
pub open spec fn char_units(c: char) -> int {
    if (c as u32) < 0x1_0000 {
        1
    } else {
        2
    }
}

fn unit_count(c: char) -> (r: u32)
    ensures
        r == char_units(c),
        1 <= r <= 2,
{
    if (c as u32) < 0x1_0000 {
        1
    } else {
        2
    }
}

/// How many UTF-16 code units a text takes.
pub open spec fn text_units(s: Seq<char>) -> int
    decreases s.len(),
{
    if s.len() == 0 {
        0
    } else {
        text_units(s.drop_last()) + char_units(s.last())
    }
}

/// How many whole characters at the start of a text take no more than `units` code units.
pub open spec fn whole_chars(s: Seq<char>, units: int) -> int
    decreases s.len(),
{
    if s.len() == 0 {
        0
    } else if text_units(s) <= units {
        s.len() as int
    } else {
        whole_chars(s.drop_last(), units)
    }
}

/// The two lines of a text of which `fitted` code units fit on the first: the first line takes as many
/// whole characters as fit, and at least one.
pub open spec fn label_lines(s: Seq<char>, fitted: int) -> (Seq<char>, Seq<char>) {
    let n = whole_chars(s, fitted);
    let k = if n < 1 { 1 } else { n };
    (s.take(k), s.skip(k))
}

proof fn lemma_text_units(s: Seq<char>, k: int)
    requires
        0 <= k <= s.len(),
    ensures
        text_units(s.take(k)) <= text_units(s),
        k <= text_units(s.take(k)) <= 2 * k,
    decreases s.len() - k,
{
    if k < s.len() {
        lemma_text_units(s, k + 1);
        assert(s.take(k + 1).drop_last() =~= s.take(k));
        lemma_units_bound(s.take(k));
    } else {
        assert(s.take(k) =~= s);
        lemma_units_bound(s);
    }
}

proof fn lemma_units_bound(s: Seq<char>)
    ensures
        s.len() <= text_units(s) <= 2 * s.len(),
    decreases s.len(),
{
    if s.len() > 0 {
        lemma_units_bound(s.drop_last());
    }
}

/// How many whole characters fit, seen from the start of the text.
pub proof fn lemma_whole_chars(s: Seq<char>, k: int, units: int)
    requires
        0 <= k <= s.len(),
        text_units(s.take(k)) <= units,
        k < s.len() ==> text_units(s.take(k + 1)) > units,
    ensures
        whole_chars(s, units) == k,
    decreases s.len(),
{
    if k == s.len() {
        assert(s.take(k) =~= s);
    } else {
        lemma_text_units(s, k + 1);
        assert(s.drop_last().take(k) =~= s.take(k));
        if k + 1 < s.len() {
            assert(s.drop_last().take(k + 1) =~= s.take(k + 1));
        }
        lemma_whole_chars(s.drop_last(), k, units);
    }
}

/// Splits a text into two lines, given how many code units fit on the first.
pub fn split_label(text: &str, fitted: u32) -> (r: (String, String))
    requires
        text@.len() > 0,
    ensures
        (r.0@, r.1@) == label_lines(text@, fitted as int),
        r.0@ + r.1@ == text@,
        r.0@.len() > 0,
{
    let v = chars_of(text);
    let n: usize = v.len();
    let mut k: usize = 0;
    let mut used: u32 = 0;
    assert(v@.take(0).len() == 0);
    while k < n && unit_count(v[k]) <= fitted - used
        invariant
            k <= n,
            n == v@.len(),
            used == text_units(v@.take(k as int)),
            used <= fitted,
        decreases n - k,
    {
        proof {
            assert(v@.take(k + 1).drop_last() =~= v@.take(k as int));
        }
        used = used + unit_count(v[k]);
        k = k + 1;
    }
    proof {
        if k < n {
            assert(v@.take(k + 1).drop_last() =~= v@.take(k as int));
        }
        lemma_whole_chars(v@, k as int, fitted as int);
        lemma_label_lines(text@, fitted as int);
    }
    let k: usize = if k < 1 { 1 } else { k };
    let first = text.substring_char(0, k);
    let rest = text.substring_char(k, n);
    assert(first@ =~= text@.take(k as int));
    assert(rest@ =~= text@.skip(k as int));
    (first.to_owned(), rest.to_owned())
}

/// How many code units a text takes, brought into the range of `u32`.
pub fn label_units(text: &str) -> (r: u32)
    ensures
        r == (if text_units(text@) > u32::MAX { u32::MAX as int } else { text_units(text@) }),
{
    let v = chars_of(text);
    let n: usize = v.len();
    let mut i: usize = 0;
    let mut used: u32 = 0;
    assert(v@.take(0).len() == 0);
    while i < n
        invariant
            i <= n,
            n == v@.len(),
            v@ == text@,
            used == (if text_units(v@.take(i as int)) > u32::MAX {
                u32::MAX as int
            } else {
                text_units(v@.take(i as int))
            }),
        decreases n - i,
    {
        proof {
            assert(v@.take(i + 1).drop_last() =~= v@.take(i as int));
        }
        let step: u32 = unit_count(v[i]);
        used = if used > 0xffff_ffff - step { 0xffff_ffff } else { used + step };
        i = i + 1;
    }
    assert(v@.take(n as int) =~= text@);
    used
}

/// Nothing of a text is lost between its two lines and no character is cut in half. The first line has
/// a character, and takes no more than fits unless that character alone does.
pub proof fn lemma_label_lines(s: Seq<char>, fitted: int)
    requires
        s.len() > 0,
        fitted >= 0,
    ensures
        ({
            let r = label_lines(s, fitted);
            &&& r.0 + r.1 == s
            &&& r.0.len() > 0
            &&& text_units(r.0) <= fitted || r.0.len() == 1
        }),
{
    lemma_whole_fits(s, fitted);
    let n = whole_chars(s, fitted);
    let k = if n < 1 { 1 } else { n };
    assert(s.take(k) + s.skip(k) =~= s);
}

proof fn lemma_whole_fits(s: Seq<char>, units: int)
    requires
        units >= 0,
    ensures
        0 <= whole_chars(s, units) <= s.len(),
        text_units(s.take(whole_chars(s, units))) <= units,
        s.len() > 0 && char_units(s[0]) <= units ==> whole_chars(s, units) > 0,
    decreases s.len(),
{
    if s.len() > 0 {
        if text_units(s) <= units {
            assert(s.take(s.len() as int) =~= s);
        } else {
            lemma_whole_fits(s.drop_last(), units);
            let k = whole_chars(s.drop_last(), units);
            assert(s.drop_last().take(k) =~= s.take(k));
            if s.len() == 1 {
                assert(s.drop_last().len() == 0);
                assert(text_units(s) == char_units(s[0]));
            }
        }
    } else {
        assert(s.take(0) =~= s);
    }
}

} // verus!
