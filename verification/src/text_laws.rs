//! What texts, file names and lists of paths come down to, character by character.
use crate::download_laws::lemma_holds_with;
use crate::paths::{holds, unique, with_path};
use crate::text::{
    ascii_lower, decimal_text, digit, dotted_extension, extension_of, label_lines, last_dot, lemma_whole_chars,
    lower_text, precedes, same_ascii, temp_extension, temp_name, text_units,
};
use vstd::prelude::*;

verus! {

/// A text comes before another one when, up to some place, they are the same, and there it ends and the
/// other one goes on, or has the smaller character.
pub proof fn lemma_precedes_at(a: Seq<char>, b: Seq<char>, i: int)
    requires
        0 <= i <= a.len(),
        i <= b.len(),
        forall|j: int| 0 <= j < i ==> a[j] == b[j],
        i == a.len() || i == b.len() || a[i] != b[i],
    ensures
        precedes(a, b) <==> i < b.len() && (i == a.len() || a[i] < b[i]),
    decreases i,
{
    if i > 0 {
        assert(a[0] == b[0]);
        let x = a.skip(1);
        let y = b.skip(1);
        assert forall|j: int| 0 <= j < i - 1 implies x[j] == y[j] by {
            assert(a[j + 1] == b[j + 1]);
        }
        lemma_precedes_at(x, y, i - 1);
    }
}

/// Two characters count as the same but for their case when they are the same, or are the upper and the
/// lower case of one ASCII letter.
pub proof fn lemma_ascii_case(a: char, b: char)
    ensures
        ascii_lower(a) == ascii_lower(b) <==> {
            ||| a == b
            ||| 'A' <= a && a <= 'Z' && b as u32 == a as u32 + 32
            ||| 'A' <= b && b <= 'Z' && a as u32 == b as u32 + 32
        },
{
}

/// Whether two texts are the same but for case is an equivalence.
pub proof fn lemma_same_ascii(a: Seq<char>, b: Seq<char>, c: Seq<char>)
    ensures
        same_ascii(a, a),
        same_ascii(a, b) == same_ascii(b, a),
        same_ascii(a, b) && same_ascii(b, c) ==> same_ascii(a, c),
        same_ascii(a, b) ==> a.len() == b.len(),
{
    if same_ascii(a, b) {
        assert forall|i: int| 0 <= i < b.len() implies ascii_lower(#[trigger] b[i]) == ascii_lower(a[i]) by {
            assert(ascii_lower(a[i]) == ascii_lower(b[i]));
        }
    }
    if same_ascii(b, a) {
        assert forall|i: int| 0 <= i < a.len() implies ascii_lower(#[trigger] a[i]) == ascii_lower(b[i]) by {
            assert(ascii_lower(b[i]) == ascii_lower(a[i]));
        }
    }
    if same_ascii(a, b) && same_ascii(b, c) {
        assert forall|i: int| 0 <= i < a.len() implies ascii_lower(#[trigger] a[i]) == ascii_lower(c[i]) by {
            assert(ascii_lower(b[i]) == ascii_lower(c[i]));
        }
    }
}

/// Two texts that differ in one character by more than its case are not the same.
pub proof fn lemma_differ(a: Seq<char>, b: Seq<char>, i: int)
    requires
        0 <= i < a.len(),
        ascii_lower(a[i]) != ascii_lower(b[i]),
    ensures
        !same_ascii(a, b),
{
}

proof fn lemma_last_dot(s: Seq<char>, i: int)
    requires
        0 <= i < s.len(),
        s[i] == '.',
        forall|j: int| i < j < s.len() ==> s[j] != '.',
    ensures
        last_dot(s) == Some(i),
    decreases s.len(),
{
    if i < s.len() - 1 {
        let t = s.drop_last();
        assert(s.last() != '.');
        assert(t[i] == '.');
        lemma_last_dot(t, i);
    }
}

proof fn lemma_no_dot(s: Seq<char>)
    requires
        forall|j: int| 0 <= j < s.len() ==> s[j] != '.',
    ensures
        last_dot(s) is None,
    decreases s.len(),
{
    if s.len() > 0 {
        assert(s.last() != '.');
        lemma_no_dot(s.drop_last());
    }
}

/// A file name made of a stem, a dot and an extension without a dot has that extension, also an empty one,
/// unless it is two dots alone; it counts for a rule by its lower case with the dot, and marks a download that is
/// still being written where it is one of those of such downloads.
pub proof fn lemma_extension(stem: Seq<char>, e: Seq<char>)
    requires
        stem.len() > 0,
        stem.len() > 1 || stem[0] != '.' || e.len() > 0,
        forall|j: int| 0 <= j < e.len() ==> e[j] != '.',
    ensures
        extension_of(stem + seq!['.'] + e) == Some(e),
        dotted_extension(stem + seq!['.'] + e) == seq!['.'] + lower_text(e),
        temp_name(stem + seq!['.'] + e) == temp_extension(e),
{
    let s = stem + seq!['.'] + e;
    let i = stem.len() as int;
    assert(s[i] == '.');
    assert forall|j: int| i < j < s.len() implies s[j] != '.' by {
        assert(s[j] == e[j - i - 1]);
    }
    lemma_last_dot(s, i);
    assert(s.skip(i + 1) =~= e);
    let two = seq!['.', '.'];
    if s == two {
        assert(s.len() == 2);
        assert(s[0] == two[0]);
        assert(s[0] == stem[0]);
        assert(stem.len() == 1);
        assert(e.len() == 0);
    }
}

/// A file name without a dot has no extension, nor has one whose only dot is its first character.
pub proof fn lemma_no_extension(s: Seq<char>)
    requires
        forall|j: int| 0 < j < s.len() ==> s[j] != '.',
    ensures
        extension_of(s) is None,
        dotted_extension(s).len() == 0,
        !temp_name(s),
{
    if s.len() > 0 && s[0] == '.' {
        lemma_last_dot(s, 0);
    } else {
        lemma_no_dot(s);
    }
}

/// The first line of a label takes as many characters as fit: one more would not.
pub proof fn lemma_first_line_full(s: Seq<char>, fitted: int, k: int)
    requires
        0 <= k <= s.len(),
        s.len() > 0,
        text_units(s.take(k)) <= fitted,
        k < s.len() ==> text_units(s.take(k + 1)) > fitted,
    ensures
        k >= 1 ==> label_lines(s, fitted) == (s.take(k), s.skip(k)),
        k == 0 ==> label_lines(s, fitted) == (s.take(1), s.skip(1)),
{
    lemma_whole_chars(s, k, fitted);
}

/// A text takes as many code units as its parts together; a character takes one, or two beyond the first
/// 65536.
pub proof fn lemma_units_add(a: Seq<char>, b: Seq<char>)
    ensures
        text_units(a + b) == text_units(a) + text_units(b),
    decreases b.len(),
{
    if b.len() == 0 {
        assert(a + b =~= a);
    } else {
        assert((a + b).drop_last() =~= a + b.drop_last());
        lemma_units_add(a, b.drop_last());
    }
}

/// What digits mean: each one counts ten times the one after it.
pub open spec fn decimal_value(s: Seq<char>) -> int
    decreases s.len(),
{
    if s.len() == 0 {
        0
    } else {
        10 * decimal_value(s.drop_last()) + (s.last() as u32 - '0' as u32)
    }
}

/// A number is written by digits that mean it, without a zero in front.
pub proof fn lemma_decimal(n: nat)
    ensures
        decimal_value(decimal_text(n)) == n,
        decimal_text(n).len() > 0,
        forall|i: int| 0 <= i < decimal_text(n).len() ==> '0' <= #[trigger] decimal_text(n)[i] && decimal_text(n)[i] <= '9',
        n > 0 ==> decimal_text(n)[0] != '0',
    decreases n,
{
    let s = decimal_text(n);
    if n < 10 {
        assert(s.drop_last().len() == 0);
        assert(decimal_value(s.drop_last()) == 0);
        assert(s.last() == digit(n as int));
    } else {
        lemma_decimal(n / 10);
        assert(s.drop_last() =~= decimal_text(n / 10));
        assert(s.last() == digit(n as int % 10));
        assert(s[0] == decimal_text(n / 10)[0]);
        assert forall|i: int| 0 <= i < s.len() implies '0' <= #[trigger] s[i] && s[i] <= '9' by {
            if i < s.len() - 1 {
                assert(s[i] == decimal_text(n / 10)[i]);
            }
        }
    }
}

/// A list of paths without repetitions has the paths of the list and no others, each once.
pub proof fn lemma_unique(v: Seq<String>)
    ensures
        forall|q: Seq<char>| #[trigger] holds(unique(v), q) <==> holds(v, q),
        crate::state::distinct(unique(v)),
    decreases v.len(),
{
    if v.len() > 0 {
        let head = v.drop_last();
        lemma_unique(head);
        let u = unique(head);
        let w = with_path(u, v.last());
        assert forall|q: Seq<char>| #[trigger] holds(unique(v), q) <==> holds(v, q) by {
            lemma_holds_with(u, v.last(), q);
            assert(holds(u, q) <==> holds(head, q));
            if holds(head, q) {
                let i = choose|i: int| 0 <= i < head.len() && (#[trigger] head[i])@ == q;
                assert(v[i]@ == q);
            }
            if holds(v, q) {
                let i = choose|i: int| 0 <= i < v.len() && (#[trigger] v[i])@ == q;
                if i < head.len() {
                    assert(head[i]@ == q);
                }
            }
            if v.last()@ == q {
                assert(v[v.len() - 1]@ == q);
            }
        }
        assert forall|i: int, j: int| 0 <= i < j < w.len() implies (#[trigger] w[i])@ != (#[trigger] w[j])@ by {
            if j == u.len() {
                assert(u[i]@ == w[i]@);
            } else {
                assert(u[i]@ != u[j]@);
            }
        }
    }
}

/// A name of a download that is still being written ends in one of five extensions, in any case, after a stem; and
/// every such name is one.
pub proof fn lemma_temp_names(stem: Seq<char>, e: Seq<char>, low: Seq<char>)
    requires
        stem.len() > 0,
        e.len() > 0,
        forall|j: int| 0 <= j < e.len() ==> e[j] != '.',
        same_ascii(e, low),
    ensures
        low == "crdownload"@ || low == "part"@ || low == "partial"@ || low == "download"@ || low == "tmp"@ ==> temp_name(
            stem + seq!['.'] + e,
        ),
        temp_name(stem + seq!['.'] + e) == temp_name(stem + seq!['.'] + low),
{
    lemma_extension(stem, e);
    lemma_same_ascii(e, low, low);
    assert forall|j: int| 0 <= j < low.len() implies low[j] != '.' by {
        assert(ascii_lower(e[j]) == ascii_lower(low[j]));
    }
    lemma_extension(stem, low);
    lemma_same_ascii(low, e, "crdownload"@);
    lemma_same_ascii(low, e, "part"@);
    lemma_same_ascii(low, e, "partial"@);
    lemma_same_ascii(low, e, "download"@);
    lemma_same_ascii(low, e, "tmp"@);
    lemma_same_ascii(e, low, "crdownload"@);
    lemma_same_ascii(e, low, "part"@);
    lemma_same_ascii(e, low, "partial"@);
    lemma_same_ascii(e, low, "download"@);
    lemma_same_ascii(e, low, "tmp"@);
}

} // verus!
