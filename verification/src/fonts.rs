//! Font lookup by a fuzzy, case-insensitive family name.
use vstd::prelude::*;
use vstd::utf8::is_ascii_chars;

verus! {

/// The lowercase form of a string, as std's `str::to_lowercase` gives it.
pub uninterp spec fn lowercase(s: Seq<char>) -> Seq<char>;

/// `str::to_lowercase`, which maps every character to its Unicode lowercase
/// form. Claimed: the result depends on the string alone (it is named
/// `lowercase`); what that mapping is stays unsaid.
#[verifier::external_body]
fn to_lowercase(s: &str) -> (r: String)
    ensures
        r@ == lowercase(s@),
{
    s.to_lowercase()
}

/// `needle` occurs in `hay` as a contiguous run of characters.
pub open spec fn occurs_in(needle: Seq<char>, hay: Seq<char>) -> bool {
    exists|i: int| 0 <= i <= hay.len() - needle.len() && #[trigger] hay.subrange(i, i + needle.len()) == needle
}

/// `c` is an uppercase ASCII letter.
pub open spec fn is_ascii_upper(c: char) -> bool {
    'A' <= c <= 'Z'
}

/// `c` is a lowercase ASCII letter.
pub open spec fn is_ascii_lower(c: char) -> bool {
    'a' <= c <= 'z'
}

/// The ASCII lowercase of a character: `A` to `Z` become `a` to `z` (32
/// code points further on), any other character stays.
pub open spec fn ascii_lower_char(c: char) -> char {
    if is_ascii_upper(c) {
        ((c as int) + 32) as char
    } else {
        c
    }
}

/// The ASCII lowercase of a string, character by character.
pub open spec fn ascii_lowercase(s: Seq<char>) -> Seq<char> {
    s.map_values(|c: char| ascii_lower_char(c))
}

/// The case-folded form in which names are compared: for an ASCII string
/// its ASCII lowercase (which is what `str::to_lowercase` gives an ASCII
/// string), for any other string `str::to_lowercase`.
pub open spec fn folded(s: Seq<char>) -> Seq<char> {
    if is_ascii_chars(s) {
        ascii_lowercase(s)
    } else {
        lowercase(s)
    }
}

/// Family name `family` matches the requested `name`: the case-folded name
/// occurs in the case-folded family name.
pub open spec fn family_matches(family: Seq<char>, name: Seq<char>) -> bool {
    occurs_in(folded(name), folded(family))
}

/// `a` and `b` are the same ASCII text up to the case of letters: at each
/// index the characters are equal, or are the upper- and lowercase forms
/// of one letter.
pub open spec fn same_up_to_case(a: Seq<char>, b: Seq<char>) -> bool {
    &&& a.len() == b.len()
    &&& forall|i: int|
        0 <= i < a.len() ==> {
            ||| a[i] == b[i]
            ||| is_ascii_upper(a[i]) && (b[i] as int) == (a[i] as int) + 32
            ||| is_ascii_upper(b[i]) && (a[i] as int) == (b[i] as int) + 32
        }
}

/// Folding an ASCII string keeps its length, leaves no uppercase letter,
/// changes nothing but uppercase letters, and gives the same result for
/// strings that differ only in the case of letters.
pub proof fn lemma_folded_ascii(a: Seq<char>, b: Seq<char>)
    requires
        is_ascii_chars(a),
    ensures
        folded(a).len() == a.len(),
        forall|i: int| 0 <= i < a.len() ==> !is_ascii_upper(#[trigger] folded(a)[i]),
        forall|i: int| 0 <= i < a.len() && !is_ascii_upper(a[i]) ==> #[trigger] folded(a)[i] == a[i],
        same_up_to_case(a, b) ==> folded(a) == folded(b),
{
    if same_up_to_case(a, b) {
        assert(is_ascii_chars(b)) by {
            assert forall|i: int| 0 <= i < b.len() implies '\0' <= #[trigger] b[i] <= '\u{7f}' by {
                assert('\0' <= a[i] <= '\u{7f}');
            }
        }
        assert forall|i: int| 0 <= i < a.len() implies ascii_lower_char(a[i]) == ascii_lower_char(
            b[i],
        ) by {
            assert('\0' <= a[i] <= '\u{7f}');
            assert('\0' <= b[i] <= '\u{7f}');
        }
        assert(folded(a) =~= folded(b));
    }
}

/// An ASCII name that occurs in an ASCII family name, letter case aside,
/// matches it.
pub proof fn lemma_occurrence_matches(family: Seq<char>, name: Seq<char>, at: int)
    requires
        is_ascii_chars(family),
        is_ascii_chars(name),
        0 <= at <= family.len() - name.len(),
        same_up_to_case(family.subrange(at, at + name.len()), name),
    ensures
        family_matches(family, name),
{
    let part = family.subrange(at, at + name.len());
    assert(is_ascii_chars(part)) by {
        assert forall|i: int| 0 <= i < part.len() implies '\0' <= #[trigger] part[i] <= '\u{7f}' by {
            assert(part[i] == family[at + i]);
        }
    }
    lemma_folded_ascii(part, name);
    assert(folded(family).subrange(at, at + name.len()) =~= folded(part));
}

/// The characters of `s`.
fn chars_of(s: &str) -> (r: Vec<char>)
    ensures
        r@ == s@,
{
    let n = s.unicode_len();
    let mut r: Vec<char> = Vec::new();
    let mut i: usize = 0;
    while i < n
        invariant
            n == s@.len(),
            i <= n,
            r@ == s@.take(i as int),
        decreases n - i,
    {
        let c = s.get_char(i);
        r.push(c);
        assert(r@ =~= s@.take(i + 1));
        i = i + 1;
    }
    assert(r@ =~= s@);
    r
}

/// Whether `needle` matches `hay` at position `at`.
fn matches_at(hay: &Vec<char>, needle: &Vec<char>, at: usize) -> (b: bool)
    requires
        at + needle@.len() <= hay@.len(),
    ensures
        b == (hay@.subrange(at as int, at + needle@.len()) == needle@),
{
    let hl = hay.len();
    let mut k: usize = 0;
    while k < needle.len()
        invariant
            hl == hay@.len(),
            at + needle@.len() <= hay@.len(),
            k <= needle@.len(),
            forall|j: int| 0 <= j < k ==> hay@[at + j] == needle@[j],
        decreases needle@.len() - k,
    {
        if hay[at + k] != needle[k] {
            assert(hay@.subrange(at as int, at + needle@.len())[k as int] != needle@[k as int]);
            return false;
        }
        k = k + 1;
    }
    assert(hay@.subrange(at as int, at + needle@.len()) =~= needle@);
    true
}

/// Whether `needle` occurs in `hay`.
fn occurs(needle: &Vec<char>, hay: &Vec<char>) -> (b: bool)
    ensures
        b == occurs_in(needle@, hay@),
{
    if needle.len() > hay.len() {
        return false;
    }
    let last = hay.len() - needle.len();
    let mut at: usize = 0;
    loop
        invariant
            last == hay@.len() - needle@.len(),
            at <= last,
            forall|i: int| 0 <= i < at ==> #[trigger] hay@.subrange(i, i + needle@.len()) != needle@,
        decreases last - at,
    {
        if matches_at(hay, needle, at) {
            return true;
        }
        if at == last {
            return false;
        }
        at = at + 1;
    }
}

/// The index of the first of `names` in which `needle` occurs, or `None`
/// when it occurs in none of them.
pub fn first_occurrence(names: &[String], needle: &str) -> (r: Option<usize>)
    ensures
        r matches Some(i) ==> i < names@.len() && occurs_in(needle@, names@[i as int]@) && forall|
            j: int,
        | 0 <= j < i ==> !occurs_in(needle@, #[trigger] names@[j]@),
        r is None <==> forall|j: int|
            0 <= j < names@.len() ==> !occurs_in(needle@, #[trigger] names@[j]@),
{
    let pattern = chars_of(needle);
    let mut i: usize = 0;
    while i < names.len()
        invariant
            i <= names@.len(),
            pattern@ == needle@,
            forall|j: int| 0 <= j < i ==> !occurs_in(needle@, #[trigger] names@[j]@),
        decreases names@.len() - i,
    {
        let hay = chars_of(names[i].as_str());
        if occurs(&pattern, &hay) {
            return Some(i);
        }
        i = i + 1;
    }
    None
}

/// The ASCII lowercase of the characters `cs`.
fn ascii_lowercase_chars(cs: &Vec<char>) -> (r: Vec<char>)
    ensures
        r@ == ascii_lowercase(cs@),
{
    let mut r: Vec<char> = Vec::new();
    let mut i: usize = 0;
    while i < cs.len()
        invariant
            i <= cs@.len(),
            r@ == ascii_lowercase(cs@.take(i as int)),
        decreases cs@.len() - i,
    {
        let c = cs[i];
        let l = if 'A' <= c && c <= 'Z' {
            ((c as u8) + 32) as char
        } else {
            c
        };
        assert(l == ascii_lower_char(c));
        r.push(l);
        assert(ascii_lowercase(cs@.take(i + 1)) =~= ascii_lowercase(cs@.take(i as int)).push(
            ascii_lower_char(c),
        ));
        i = i + 1;
    }
    assert(cs@.take(cs@.len() as int) =~= cs@);
    r
}

/// The case-folded characters of `s`.
fn fold_name(s: &str) -> (r: Vec<char>)
    ensures
        r@ == folded(s@),
{
    if s.is_ascii() {
        ascii_lowercase_chars(&chars_of(s))
    } else {
        let lower = to_lowercase(s);
        chars_of(lower.as_str())
    }
}

/// The first family name in `families` that matches `name` (the case-folded
/// name occurs in the case-folded family name), or `None` when none does.
/// Letter case aside, an ASCII name that occurs in an ASCII family name is
/// always found.
pub fn find_family(families: &[String], name: &str) -> (r: Option<String>)
    ensures
        r matches Some(f) ==> exists|i: int|
            0 <= i < families@.len() && f@ == families@[i]@ && family_matches(
                families@[i]@,
                name@,
            ) && forall|j: int|
                0 <= j < i ==> !family_matches(#[trigger] families@[j]@, name@),
        r is None <==> forall|j: int|
            0 <= j < families@.len() ==> !family_matches(#[trigger] families@[j]@, name@),
        is_ascii_chars(name@) ==> forall|j: int, at: int|
            0 <= j < families@.len() && is_ascii_chars(families@[j]@) && 0 <= at
                <= families@[j]@.len() - name@.len() && same_up_to_case(
                #[trigger] families@[j]@.subrange(at, at + name@.len()),
                name@,
            ) ==> r is Some,
{
    let needle = fold_name(name);
    let mut k: usize = 0;
    while k < families.len()
        invariant
            k <= families@.len(),
            needle@ == folded(name@),
            forall|j: int| 0 <= j < k ==> !family_matches(#[trigger] families@[j]@, name@),
        decreases families@.len() - k,
    {
        let hay = fold_name(families[k].as_str());
        if occurs(&needle, &hay) {
            let r = Some(families[k].clone());
            proof {
                assert(family_matches(families@[k as int]@, name@));
                assert forall|j: int, at: int|
                    0 <= j < families@.len() && is_ascii_chars(families@[j]@) && 0 <= at
                        <= families@[j]@.len() - name@.len() && same_up_to_case(
                        #[trigger] families@[j]@.subrange(at, at + name@.len()),
                        name@,
                    ) implies r is Some by {}
            }
            return r;
        }
        k = k + 1;
    }
    proof {
        assert forall|j: int, at: int|
            is_ascii_chars(name@) && 0 <= j < families@.len() && is_ascii_chars(families@[j]@) && 0
                <= at <= families@[j]@.len() - name@.len() && same_up_to_case(
                #[trigger] families@[j]@.subrange(at, at + name@.len()),
                name@,
            ) implies false by {
            lemma_occurrence_matches(families@[j]@, name@, at);
        }
    }
    None
}

/// `a` and `b` hold the same characters at every index below `n`.
pub open spec fn agree_below(a: Seq<char>, b: Seq<char>, n: int) -> bool {
    forall|k: int| 0 <= k < n ==> a[k] == b[k]
}

/// `a` comes strictly before `b` in lexicographic order, characters
/// compared by code point: `a` is a proper prefix of `b`, or at the first
/// index where they differ `a` has the smaller character. This is the order
/// in which std sorts `String`s (UTF-8 byte order is code-point order).
pub open spec fn name_before(a: Seq<char>, b: Seq<char>) -> bool {
    ||| a.len() < b.len() && agree_below(a, b, a.len() as int)
    ||| exists|i: int|
        0 <= i < a.len() && i < b.len() && agree_below(a, b, i)
            && (a[i] as int) < (#[trigger] b[i] as int)
}

/// Each name comes strictly before the next: sorted, and no name twice.
pub open spec fn strictly_sorted(s: Seq<Seq<char>>) -> bool {
    forall|i: int, j: int| 0 <= i < j < s.len() ==> name_before(#[trigger] s[i], #[trigger] s[j])
}

/// The character sequences of the strings.
pub open spec fn name_views(s: Seq<String>) -> Seq<Seq<char>> {
    s.map_values(|x: String| x@)
}

/// `name_before` is transitive.
pub proof fn lemma_name_before_transitive(a: Seq<char>, b: Seq<char>, c: Seq<char>)
    requires
        name_before(a, b),
        name_before(b, c),
    ensures
        name_before(a, c),
{
    if a.len() < b.len() && agree_below(a, b, a.len() as int) {
        if b.len() < c.len() && agree_below(b, c, b.len() as int) {
            assert(agree_below(a, c, a.len() as int));
        } else {
            let j = choose|j: int|
                0 <= j < b.len() && j < c.len() && agree_below(b, c, j)
                    && (b[j] as int) < (#[trigger] c[j] as int);
            if j < a.len() {
                assert(agree_below(a, c, j));
                assert(a[j] == b[j]);
            } else {
                assert(agree_below(a, c, a.len() as int));
            }
        }
    } else {
        let i = choose|i: int|
            0 <= i < a.len() && i < b.len() && agree_below(a, b, i)
                && (a[i] as int) < (#[trigger] b[i] as int);
        if b.len() < c.len() && agree_below(b, c, b.len() as int) {
            assert(agree_below(a, c, i));
            assert(b[i] == c[i]);
        } else {
            let j = choose|j: int|
                0 <= j < b.len() && j < c.len() && agree_below(b, c, j)
                    && (b[j] as int) < (#[trigger] c[j] as int);
            if i < j {
                assert(agree_below(a, c, i));
                assert(b[i] == c[i]);
            } else if j < i {
                assert(agree_below(a, c, j));
                assert(a[j] == b[j]);
            } else {
                assert(agree_below(a, c, i));
            }
        }
    }
}

/// Three-way comparison of two names in the order `name_before`: negative
/// when `a` comes first, positive when `b` does, zero when they are equal.
fn name_order(a: &Vec<char>, b: &Vec<char>) -> (r: i8)
    ensures
        r < 0 <==> name_before(a@, b@),
        r > 0 <==> name_before(b@, a@),
        r == 0 <==> a@ == b@,
{
    let n = if a.len() < b.len() {
        a.len()
    } else {
        b.len()
    };
    let mut i: usize = 0;
    while i < n
        invariant
            n <= a@.len(),
            n <= b@.len(),
            n == a@.len() || n == b@.len(),
            i <= n,
            agree_below(a@, b@, i as int),
        decreases n - i,
    {
        let x = a[i];
        let y = b[i];
        if x != y {
            if x < y {
                assert(name_before(a@, b@));
                assert(!name_before(b@, a@)) by {
                    if b@.len() < a@.len() && agree_below(b@, a@, b@.len() as int) {
                        assert(b@[i as int] == a@[i as int]);
                    }
                    if exists|j: int|
                        0 <= j < b@.len() && j < a@.len() && agree_below(b@, a@, j) && (
                        b@[j] as int) < (#[trigger] a@[j] as int) {
                        let j = choose|j: int|
                            0 <= j < b@.len() && j < a@.len() && agree_below(b@, a@, j) && (
                            b@[j] as int) < (#[trigger] a@[j] as int);
                        if j < i {
                        } else if j > i {
                            assert(b@[i as int] == a@[i as int]);
                        }
                    }
                }
                assert(a@ != b@) by {
                    assert(a@[i as int] != b@[i as int]);
                }
                return -1;
            } else {
                assert((y as int) < (x as int));
                assert(name_before(b@, a@));
                assert(!name_before(a@, b@)) by {
                    if a@.len() < b@.len() && agree_below(a@, b@, a@.len() as int) {
                        assert(a@[i as int] == b@[i as int]);
                    }
                    if exists|j: int|
                        0 <= j < a@.len() && j < b@.len() && agree_below(a@, b@, j) && (
                        a@[j] as int) < (#[trigger] b@[j] as int) {
                        let j = choose|j: int|
                            0 <= j < a@.len() && j < b@.len() && agree_below(a@, b@, j) && (
                            a@[j] as int) < (#[trigger] b@[j] as int);
                        if j < i {
                        } else if j > i {
                            assert(a@[i as int] == b@[i as int]);
                        }
                    }
                }
                assert(a@ != b@) by {
                    assert(a@[i as int] != b@[i as int]);
                }
                return 1;
            }
        }
        i = i + 1;
    }
    assert(!(exists|j: int|
        0 <= j < a@.len() && j < b@.len() && agree_below(a@, b@, j)
            && (a@[j] as int) < (#[trigger] b@[j] as int)));
    assert(!(exists|j: int|
        0 <= j < b@.len() && j < a@.len() && agree_below(b@, a@, j)
            && (b@[j] as int) < (#[trigger] a@[j] as int)));
    if a.len() < b.len() {
        assert(name_before(a@, b@));
        -1
    } else if b.len() < a.len() {
        assert(name_before(b@, a@));
        1
    } else {
        assert(a@ =~= b@);
        0
    }
}

/// The names sorted in the order `name_before` with repeats dropped: each
/// name that occurs in `names` occurs once, and nothing else does.
pub fn sorted_family_names(names: &[String]) -> (out: Vec<String>)
    ensures
        strictly_sorted(name_views(out@)),
        forall|x: Seq<char>| name_views(out@).contains(x) <==> name_views(names@).contains(x),
{
    let mut out: Vec<String> = Vec::new();
    let mut k: usize = 0;
    while k < names.len()
        invariant
            k <= names@.len(),
            strictly_sorted(name_views(out@)),
            forall|x: Seq<char>|
                name_views(out@).contains(x) <==> name_views(names@.take(k as int)).contains(x),
        decreases names@.len() - k,
    {
        let name = chars_of(names[k].as_str());
        let ghost before = out@;
        let mut p: usize = 0;
        let mut found = false;
        while p < out.len()
            invariant_except_break
                !found,
            invariant
                out@ == before,
                p <= out@.len(),
                name@ == names@[k as int]@,
                forall|i: int| 0 <= i < p ==> name_before(#[trigger] out@[i]@, name@),
            ensures
                p <= out@.len(),
                forall|i: int| 0 <= i < p ==> name_before(#[trigger] out@[i]@, name@),
                found ==> p < out@.len() && out@[p as int]@ == name@,
                !found && p < out@.len() ==> name_before(name@, out@[p as int]@),
            decreases out@.len() - p,
        {
            let here = chars_of(out[p].as_str());
            let r = name_order(&here, &name);
            if r >= 0 {
                found = r == 0;
                break;
            }
            p = p + 1;
        }
        let ghost vb = name_views(before);
        let ghost seen = name_views(names@.take(k as int));
        assert(name_views(names@.take(k + 1)) =~= seen.push(name@)) by {
            assert(names@.take(k + 1) =~= names@.take(k as int).push(names@[k as int]));
        }
        assert(forall|x: Seq<char>| vb.contains(x) <==> seen.contains(x));
        if found {
            assert(vb[p as int] == name@);
            assert forall|x: Seq<char>| name_views(out@).contains(x) <==> seen.push(name@).contains(
                x,
            ) by {
                if seen.push(name@).contains(x) {
                    let j = choose|j: int| 0 <= j < seen.len() + 1 && seen.push(name@)[j] == x;
                    if j == seen.len() {
                        assert(vb[p as int] == x);
                    } else {
                        assert(seen[j] == x);
                    }
                }
                if vb.contains(x) {
                    let j = choose|j: int| 0 <= j < vb.len() && vb[j] == x;
                    assert(seen.contains(x));
                    let m = choose|m: int| 0 <= m < seen.len() && seen[m] == x;
                    assert(seen.push(name@)[m] == x);
                }
            }
        } else {
            out.insert(p, names[k].clone());
            proof {
                before.insert_ensures(p as int, names@[k as int]);
                let vn = name_views(out@);
                assert(vn.len() == vb.len() + 1);
                assert forall|i: int| 0 <= i < vn.len() implies #[trigger] vn[i] == (if i < p {
                    vb[i]
                } else if i == p {
                    name@
                } else {
                    vb[i - 1]
                }) by {}
                assert forall|i: int, j: int| 0 <= i < j < vn.len() implies name_before(
                    #[trigger] vn[i],
                    #[trigger] vn[j],
                ) by {
                    if j < p {
                        assert(name_before(vb[i], vb[j]));
                    } else if j == p {
                        assert(name_before(before[i]@, name@));
                    } else if i < p {
                        assert(name_before(vb[i], vb[j - 1]));
                    } else if i == p {
                        assert(name_before(name@, vb[p as int]));
                        if j - 1 > p {
                            assert(name_before(vb[p as int], vb[j - 1]));
                            lemma_name_before_transitive(name@, vb[p as int], vb[j - 1]);
                        }
                    } else {
                        assert(name_before(vb[i - 1], vb[j - 1]));
                    }
                }
                assert forall|x: Seq<char>| vn.contains(x) <==> seen.push(name@).contains(x) by {
                    if vn.contains(x) {
                        let j = choose|j: int| 0 <= j < vn.len() && vn[j] == x;
                        if j == p {
                            assert(seen.push(name@)[seen.len() as int] == x);
                        } else {
                            let m = if j < p {
                                j
                            } else {
                                j - 1
                            };
                            assert(vb[m] == x);
                            assert(vb.contains(x));
                            let q = choose|q: int| 0 <= q < seen.len() && seen[q] == x;
                            assert(seen.push(name@)[q] == x);
                        }
                    }
                    if seen.push(name@).contains(x) {
                        let j = choose|j: int| 0 <= j < seen.len() + 1 && seen.push(name@)[j] == x;
                        if j == seen.len() {
                            assert(vn[p as int] == x);
                        } else {
                            assert(seen[j] == x);
                            assert(seen.contains(x));
                            let m = choose|m: int| 0 <= m < vb.len() && vb[m] == x;
                            if m < p {
                                assert(vn[m] == x);
                            } else {
                                assert(vn[m + 1] == x);
                            }
                        }
                    }
                }
            }
        }
        k = k + 1;
    }
    assert(names@.take(names@.len() as int) =~= names@);
    out
}

} // verus!
