//! Texts as rows of characters: the order of two names, a text without the
//! white space around it, a text without its hyphens.

use vstd::prelude::*;
use vstd::string::*;

verus! {

/// How one name stands to another in the order of names.
#[derive(Clone, Copy, Debug, PartialEq, Eq, Structural)]
pub enum NameOrder {
    /// The first name comes before the second.
    Before,
    /// The two names are the same.
    Same,
    /// The first name comes after the second.
    After,
}

/// The first place at or after `from` where `a` and `b` differ or one of them
/// ends.
pub open spec fn first_difference(a: Seq<char>, b: Seq<char>, from: int) -> int
    decreases a.len() - from,
{
    if 0 <= from < a.len() && from < b.len() && a[from] == b[from] {
        first_difference(a, b, from + 1)
    } else {
        from
    }
}

/// Whether the name `a` comes before the name `b`: at the first place where
/// they differ `a` has ended, or holds the character with the lower code
/// point. Upper and lower case are different characters.
pub open spec fn name_before(a: Seq<char>, b: Seq<char>) -> bool {
    let k = first_difference(a, b, 0);
    k < b.len() && (k == a.len() || a[k] < b[k])
}

/// How the name `a` stands to the name `b`.
pub open spec fn name_order(a: Seq<char>, b: Seq<char>) -> NameOrder {
    if name_before(a, b) {
        NameOrder::Before
    } else if a == b {
        NameOrder::Same
    } else {
        NameOrder::After
    }
}

/// Whether `k` is the place where `a` and `b` first differ: up to `k` they
/// agree, and at `k` one of them ends or they hold different characters.
pub open spec fn is_first_difference(a: Seq<char>, b: Seq<char>, k: int) -> bool {
    &&& 0 <= k <= a.len()
    &&& k <= b.len()
    &&& forall|i: int| 0 <= i < k ==> a[i] == b[i]
    &&& (k < a.len() && k < b.len() ==> a[k] != b[k])
}

/// `first_difference` finds the place where two names first differ, given
/// that they agree before `from`.
pub proof fn lemma_first_difference(a: Seq<char>, b: Seq<char>, from: int)
    requires
        0 <= from <= a.len(),
        from <= b.len(),
        forall|i: int| 0 <= i < from ==> a[i] == b[i],
    ensures
        is_first_difference(a, b, first_difference(a, b, from)),
        from <= first_difference(a, b, from),
    decreases a.len() - from,
{
    if from < a.len() && from < b.len() && a[from] == b[from] {
        lemma_first_difference(a, b, from + 1);
    }
}

/// Two names first differ at one place only.
pub proof fn lemma_first_difference_unique(a: Seq<char>, b: Seq<char>, k: int, m: int)
    requires
        is_first_difference(a, b, k),
        is_first_difference(a, b, m),
    ensures
        k == m,
{
    if k < m {
        assert(a[k] == b[k]);
    } else if m < k {
        assert(a[m] == b[m]);
    }
}

/// Of two names exactly one holds: the first comes before the second, they
/// are the same, or the second comes before the first.
pub proof fn lemma_name_order_total(a: Seq<char>, b: Seq<char>)
    ensures
        name_before(a, b) || a == b || name_before(b, a),
        !(name_before(a, b) && a == b),
        !(name_before(a, b) && name_before(b, a)),
        !(name_before(b, a) && a == b),
        name_order(a, b) == NameOrder::After <==> name_before(b, a),
{
    lemma_first_difference(a, b, 0);
    lemma_first_difference(b, a, 0);
    let k = first_difference(a, b, 0);
    assert(is_first_difference(b, a, k));
    lemma_first_difference_unique(b, a, k, first_difference(b, a, 0));
    if k == a.len() && k == b.len() {
        assert(a =~= b);
    }
}

/// The order of names is transitive.
pub proof fn lemma_name_before_transitive(a: Seq<char>, b: Seq<char>, c: Seq<char>)
    requires
        name_before(a, b),
        name_before(b, c),
    ensures
        name_before(a, c),
{
    lemma_first_difference(a, b, 0);
    lemma_first_difference(b, c, 0);
    lemma_first_difference(a, c, 0);
    let k = first_difference(a, b, 0);
    let m = first_difference(b, c, 0);
    let least = if k <= m {
        k
    } else {
        m
    };
    assert(is_first_difference(a, c, least));
    lemma_first_difference_unique(a, c, least, first_difference(a, c, 0));
}

/// Compares two names character by character, by code point.
pub fn compare_names(a: &str, b: &str) -> (order: NameOrder)
    ensures
        order == name_order(a@, b@),
{
    let a_len: usize = a.unicode_len();
    let b_len: usize = b.unicode_len();
    let mut k: usize = 0;
    while k < a_len && k < b_len && a.get_char(k) == b.get_char(k)
        invariant
            a_len == a@.len(),
            b_len == b@.len(),
            k <= a_len,
            k <= b_len,
            first_difference(a@, b@, 0) == first_difference(a@, b@, k as int),
        decreases a_len - k,
    {
        k = k + 1;
    }
    proof {
        lemma_first_difference(a@, b@, 0);
        lemma_name_order_total(a@, b@);
    }
    if k == b_len {
        if k == a_len {
            proof {
                assert(a@ =~= b@);
            }
            NameOrder::Same
        } else {
            NameOrder::After
        }
    } else if k == a_len {
        NameOrder::Before
    } else if a.get_char(k) < b.get_char(k) {
        NameOrder::Before
    } else {
        NameOrder::After
    }
}

/// Whether `c` is white space: a tab, a line feed, a vertical tab, a form
/// feed, a carriage return, a space, a next-line mark, or one of the spaces
/// and separators beyond the first 128 characters.
pub open spec fn is_white_space(c: char) -> bool {
    let u = c as u32;
    ||| (0x09 <= u && u <= 0x0D)
    ||| u == 0x20
    ||| u == 0x85
    ||| u == 0xA0
    ||| u == 0x1680
    ||| (0x2000 <= u && u <= 0x200A)
    ||| u == 0x2028
    ||| u == 0x2029
    ||| u == 0x202F
    ||| u == 0x205F
    ||| u == 0x3000
}

/// The first place at or after `from` that holds no white space, or the
/// length of `s` where there is none.
pub open spec fn first_kept(s: Seq<char>, from: int) -> int
    decreases s.len() - from,
{
    if 0 <= from < s.len() && is_white_space(s[from]) {
        first_kept(s, from + 1)
    } else {
        from
    }
}

/// The end of the text that is left of `s` up to `upto` when the white space
/// before `upto` is dropped; never below `low`.
pub open spec fn last_kept(s: Seq<char>, low: int, upto: int) -> int
    decreases upto - low,
{
    if low < upto <= s.len() && is_white_space(s[upto - 1]) {
        last_kept(s, low, upto - 1)
    } else {
        upto
    }
}

/// The text `s` without the white space at its two ends.
pub open spec fn trimmed(s: Seq<char>) -> Seq<char> {
    let low = first_kept(s, 0);
    s.subrange(low, last_kept(s, low, s.len() as int))
}

/// A trimmed text is a part of the text, neither begins nor ends with white
/// space, all that was dropped is white space, and trimming it again changes
/// nothing.
pub proof fn lemma_trimmed(s: Seq<char>)
    ensures
        trimmed(s).len() <= s.len(),
        trimmed(s).len() > 0 ==> !is_white_space(trimmed(s).first()) && !is_white_space(
            trimmed(s).last(),
        ),
        forall|i: int| 0 <= i < first_kept(s, 0) ==> is_white_space(#[trigger] s[i]),
        forall|i: int|
            last_kept(s, first_kept(s, 0), s.len() as int) <= i < s.len() ==> is_white_space(
                #[trigger] s[i],
            ),
        trimmed(trimmed(s)) == trimmed(s),
{
    lemma_first_kept(s, 0);
    let low = first_kept(s, 0);
    lemma_last_kept(s, low, s.len() as int);
    let kept = trimmed(s);
    assert(first_kept(kept, 0) == 0);
    assert(last_kept(kept, 0, kept.len() as int) == kept.len());
    assert(kept.subrange(0, kept.len() as int) =~= kept);
}

/// Between `from` and `first_kept` all is white space, and what stands at
/// `first_kept` is none.
pub proof fn lemma_first_kept(s: Seq<char>, from: int)
    requires
        0 <= from <= s.len(),
    ensures
        from <= first_kept(s, from) <= s.len(),
        forall|i: int| from <= i < first_kept(s, from) ==> is_white_space(#[trigger] s[i]),
        first_kept(s, from) < s.len() ==> !is_white_space(s[first_kept(s, from)]),
    decreases s.len() - from,
{
    if from < s.len() && is_white_space(s[from]) {
        lemma_first_kept(s, from + 1);
    }
}

/// Between `last_kept` and `upto` all is white space, and what stands just
/// before `last_kept` is none.
pub proof fn lemma_last_kept(s: Seq<char>, low: int, upto: int)
    requires
        0 <= low <= upto <= s.len(),
    ensures
        low <= last_kept(s, low, upto) <= upto,
        forall|i: int| last_kept(s, low, upto) <= i < upto ==> is_white_space(#[trigger] s[i]),
        low < last_kept(s, low, upto) ==> !is_white_space(s[last_kept(s, low, upto) - 1]),
    decreases upto - low,
{
    if low < upto && is_white_space(s[upto - 1]) {
        lemma_last_kept(s, low, upto - 1);
    }
}

/// Whether `c` is white space.
pub fn white_space(c: char) -> (r: bool)
    ensures
        r == is_white_space(c),
{
    let u: u32 = c as u32;
    (0x09 <= u && u <= 0x0D) || u == 0x20 || u == 0x85 || u == 0xA0 || u == 0x1680 || (0x2000 <= u
        && u <= 0x200A) || u == 0x2028 || u == 0x2029 || u == 0x202F || u == 0x205F || u == 0x3000
}

/// The text without the white space at its two ends.
pub fn trim(text: &str) -> (r: &str)
    ensures
        r@ == trimmed(text@),
{
    let n: usize = text.unicode_len();
    let mut low: usize = 0;
    while low < n && white_space(text.get_char(low))
        invariant
            n == text@.len(),
            low <= n,
            first_kept(text@, 0) == first_kept(text@, low as int),
        decreases n - low,
    {
        low = low + 1;
    }
    let mut high: usize = n;
    while low < high && white_space(text.get_char(high - 1))
        invariant
            n == text@.len(),
            low <= high <= n,
            last_kept(text@, low as int, n as int) == last_kept(text@, low as int, high as int),
        decreases high - low,
    {
        high = high - 1;
    }
    text.substring_char(low, high)
}

/// The text `s` without its hyphens.
pub open spec fn without_hyphens(s: Seq<char>) -> Seq<char>
    decreases s.len(),
{
    if s.len() == 0 {
        s
    } else if s.last() == '-' {
        without_hyphens(s.drop_last())
    } else {
        without_hyphens(s.drop_last()).push(s.last())
    }
}

/// The text without its hyphens.
pub fn strip_hyphens(text: &str) -> (r: String)
    ensures
        r@ == without_hyphens(text@),
{
    let n: usize = text.unicode_len();
    let mut out: String = String::new();
    let mut i: usize = 0;
    while i < n
        invariant
            n == text@.len(),
            i <= n,
            out@ == without_hyphens(text@.subrange(0, i as int)),
        decreases n - i,
    {
        let ghost longer = text@.subrange(0, i + 1);
        assert(longer.drop_last() =~= text@.subrange(0, i as int));
        if text.get_char(i) != '-' {
            let one: &str = text.substring_char(i, i + 1);
            assert(one@ =~= seq![text@[i as int]]);
            out.append(one);
            assert(out@ =~= without_hyphens(text@.subrange(0, i as int)).push(text@[i as int]));
        }
        i = i + 1;
    }
    assert(text@.subrange(0, n as int) =~= text@);
    out
}

/// A text without its hyphens holds no hyphen, and is the text itself where
/// the text holds none.
pub proof fn lemma_without_hyphens(s: Seq<char>)
    ensures
        forall|i: int| 0 <= i < without_hyphens(s).len() ==> #[trigger] without_hyphens(s)[i] != '-',
        without_hyphens(s).len() <= s.len(),
        (forall|i: int| 0 <= i < s.len() ==> #[trigger] s[i] != '-') ==> without_hyphens(s) == s,
        without_hyphens(without_hyphens(s)) == without_hyphens(s),
    decreases s.len(),
{
    if s.len() > 0 {
        let shorter = s.drop_last();
        lemma_without_hyphens(shorter);
        if forall|i: int| 0 <= i < s.len() ==> #[trigger] s[i] != '-' {
            assert forall|i: int| 0 <= i < shorter.len() implies #[trigger] shorter[i] != '-' by {
                assert(shorter[i] == s[i]);
            }
            assert(without_hyphens(s) =~= s);
        }
        let stripped = without_hyphens(s);
        if s.last() != '-' {
            assert(stripped.drop_last() =~= without_hyphens(shorter));
            assert(stripped.last() == s.last());
        }
        assert(without_hyphens(stripped) =~= stripped);
    }
}

/// Two texts in a row without their hyphens are the first without its
/// hyphens and then the second without its hyphens.
pub proof fn lemma_without_hyphens_concat(a: Seq<char>, b: Seq<char>)
    ensures
        without_hyphens(a + b) == without_hyphens(a) + without_hyphens(b),
    decreases b.len(),
{
    if b.len() == 0 {
        assert(a + b =~= a);
        assert(without_hyphens(a) + without_hyphens(b) =~= without_hyphens(a));
    } else {
        lemma_without_hyphens_concat(a, b.drop_last());
        assert((a + b).drop_last() =~= a + b.drop_last());
        assert((a + b).last() == b.last());
        if b.last() != '-' {
            assert(without_hyphens(a) + without_hyphens(b.drop_last()).push(b.last()) =~= (
            without_hyphens(a) + without_hyphens(b.drop_last())).push(b.last()));
        }
    }
}

/// A hyphen anywhere in a text changes nothing in the text without its
/// hyphens.
pub proof fn lemma_hyphen_dropped(a: Seq<char>, b: Seq<char>)
    ensures
        without_hyphens(a + seq!['-'] + b) == without_hyphens(a + b),
{
    let hyphen = seq!['-'];
    lemma_without_hyphens_concat(a + hyphen, b);
    lemma_without_hyphens_concat(a, hyphen);
    lemma_without_hyphens_concat(a, b);
    assert(hyphen.last() == '-');
    assert(hyphen.drop_last() =~= Seq::<char>::empty());
    assert(without_hyphens(hyphen.drop_last()) =~= Seq::<char>::empty());
    assert(without_hyphens(hyphen) =~= Seq::<char>::empty());
    assert(without_hyphens(a) + Seq::<char>::empty() =~= without_hyphens(a));
}

} // verus!
