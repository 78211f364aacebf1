//! Label encoding of text columns: each distinct label gets an integer code
//! in sorted order, the null spellings get none, and the codes can be turned
//! back into the labels.

use vstd::prelude::*;

use crate::mode::chars_of;

verus! {

/// `a` comes before `b` in lexicographic order of code points, which is the
/// order of `str` (UTF-8 keeps the order of code points).
pub open spec fn text_lt(a: Seq<char>, b: Seq<char>) -> bool
    decreases a.len(),
{
    if a.len() == 0 {
        b.len() > 0
    } else if b.len() == 0 {
        false
    } else if (a[0] as int) < (b[0] as int) {
        true
    } else if a[0] == b[0] {
        text_lt(a.drop_first(), b.drop_first())
    } else {
        false
    }
}

/// No text comes before itself.
pub proof fn lemma_text_lt_irreflexive(a: Seq<char>)
    ensures
        !text_lt(a, a),
    decreases a.len(),
{
    if a.len() > 0 {
        lemma_text_lt_irreflexive(a.drop_first());
    }
}

/// The order is transitive.
pub proof fn lemma_text_lt_transitive(a: Seq<char>, b: Seq<char>, c: Seq<char>)
    requires
        text_lt(a, b),
        text_lt(b, c),
    ensures
        text_lt(a, c),
    decreases a.len(),
{
    if a.len() > 0 && b.len() > 0 && c.len() > 0 {
        if a[0] == b[0] && b[0] == c[0] {
            lemma_text_lt_transitive(a.drop_first(), b.drop_first(), c.drop_first());
        }
    }
}

/// Of two different texts one comes first, and not both.
pub proof fn lemma_text_lt_total(a: Seq<char>, b: Seq<char>)
    ensures
        a != b ==> (text_lt(a, b) || text_lt(b, a)),
        !(text_lt(a, b) && text_lt(b, a)),
    decreases a.len(),
{
    if a.len() > 0 && b.len() > 0 {
        lemma_text_lt_total(a.drop_first(), b.drop_first());
        if a[0] == b[0] && a.drop_first() == b.drop_first() {
            assert(a =~= seq![a[0]] + a.drop_first());
            assert(b =~= seq![b[0]] + b.drop_first());
        }
        if a[0] != b[0] {
            assert((a[0] as int) != (b[0] as int));
        }
    } else if a.len() == 0 && b.len() == 0 {
        assert(a =~= b);
    }
}

/// Whether `a` comes before `b`.
fn lt_text(a: &Vec<char>, b: &Vec<char>) -> (r: bool)
    ensures
        r == text_lt(a@, b@),
{
    let mut i: usize = 0;
    assert(a@.skip(0) =~= a@);
    assert(b@.skip(0) =~= b@);
    while i < a.len() && i < b.len()
        invariant
            i <= a@.len(),
            i <= b@.len(),
            a@.take(i as int) == b@.take(i as int),
            text_lt(a@, b@) == text_lt(a@.skip(i as int), b@.skip(i as int)),
        decreases a@.len() - i,
    {
        if a[i] < b[i] {
            assert(text_lt(a@.skip(i as int), b@.skip(i as int)));
            return true;
        }
        if a[i] != b[i] {
            return false;
        }
        assert(a@.skip(i as int).drop_first() =~= a@.skip(i + 1));
        assert(b@.skip(i as int).drop_first() =~= b@.skip(i + 1));
        assert(a@.take(i + 1) =~= a@.take(i as int).push(a@[i as int]));
        assert(b@.take(i + 1) =~= b@.take(i as int).push(b@[i as int]));
        i = i + 1;
    }
    i < b.len()
}

/// Whether two texts are equal.
fn eq_text(a: &Vec<char>, b: &Vec<char>) -> (r: bool)
    ensures
        r == (a@ == b@),
{
    if a.len() != b.len() {
        return false;
    }
    for i in 0..a.len()
        invariant
            a@.len() == b@.len(),
            forall|j: int| 0 <= j < i ==> a@[j] == b@[j],
    {
        if a[i] != b[i] {
            return false;
        }
    }
    assert(a@ =~= b@);
    true
}

} // verus!

verus! {

/// The spellings of a missing label: `nan`, `NaN` and `<NA>`.
pub open spec fn is_null_label(s: Seq<char>) -> bool {
    s == seq!['n', 'a', 'n'] || s == seq!['N', 'a', 'N'] || s == seq!['<', 'N', 'A', '>']
}

/// The labels are in strictly increasing order.
pub open spec fn strictly_sorted(labels: Seq<Seq<char>>) -> bool {
    forall|i: int, j: int| 0 <= i < j < labels.len() ==> text_lt(#[trigger] labels[i], #[trigger] labels[j])
}

/// The number of labels before position `j` that are not null spellings.
pub open spec fn codes_before(labels: Seq<Seq<char>>, j: nat) -> nat
    decreases j,
{
    if j == 0 {
        0
    } else {
        codes_before(labels, (j - 1) as nat) + if is_null_label(labels[j - 1]) { 0nat } else { 1nat }
    }
}

/// The code of the label at position `j` of the sorted distinct labels: none
/// for a null spelling, otherwise the number of non-null labels before it.
pub open spec fn code_at(labels: Seq<Seq<char>>, j: int) -> Option<u64> {
    if is_null_label(labels[j]) {
        None
    } else {
        Some(codes_before(labels, j as nat) as u64)
    }
}

/// The label map of a text column: the distinct labels in increasing order,
/// each with its code.
pub struct LabelMap {
    pub labels: Vec<String>,
    pub codes: Vec<Option<u64>>,
}

impl LabelMap {
    /// The labels as character sequences.
    pub open spec fn label_seq(self) -> Seq<Seq<char>> {
        texts(self.labels@)
    }

    /// The map lists, in increasing order and once each, exactly the labels
    /// of `values`, and gives each its code.
    pub open spec fn encodes(self, values: Seq<Seq<char>>) -> bool {
        let l = self.label_seq();
        &&& strictly_sorted(l)
        &&& forall|v: Seq<char>| #[trigger] l.contains(v) <==> values.contains(v)
        &&& self.codes@.len() == l.len()
        &&& forall|j: int| 0 <= j < l.len() ==> #[trigger] self.codes@[j] == code_at(l, j)
    }
}

/// `e` is the code that `codes` gives the label `v` of the sorted labels `l`.
pub open spec fn has_code(l: Seq<Seq<char>>, codes: Seq<Option<u64>>, v: Seq<char>, e: Option<u64>) -> bool {
    exists|j: int| 0 <= j < l.len() && #[trigger] l[j] == v && e == codes[j]
}

/// The texts of a column of strings.
pub open spec fn texts(values: Seq<String>) -> Seq<Seq<char>> {
    values.map_values(|s: String| s@)
}

/// Inserts `v` into the sorted list of distinct texts, unless it is there.
fn insert_sorted(chars: &mut Vec<Vec<char>>, labels: &mut Vec<String>, v: &Vec<char>, s: &String)
    requires
        v@ == s@,
        old(chars)@.len() == old(labels)@.len(),
        forall|j: int| 0 <= j < old(chars)@.len() ==> (#[trigger] old(chars)@[j])@ == old(labels)@[j]@,
        strictly_sorted(texts(old(labels)@)),
    ensures
        final(chars)@.len() == final(labels)@.len(),
        forall|j: int| 0 <= j < final(chars)@.len() ==> (#[trigger] final(chars)@[j])@ == final(labels)@[j]@,
        strictly_sorted(texts(final(labels)@)),
        forall|t: Seq<char>| #[trigger] texts(final(labels)@).contains(t) <==> (texts(old(labels)@).contains(t) || t == v@),
{
    let ghost l0 = texts(labels@);
    let mut p: usize = 0;
    while p < chars.len() && lt_text(&chars[p], v)
        invariant
            p <= chars@.len(),
            chars@.len() == labels@.len(),
            chars@ == old(chars)@,
            labels@ == old(labels)@,
            l0 == texts(labels@),
            forall|j: int| 0 <= j < chars@.len() ==> (#[trigger] chars@[j])@ == labels@[j]@,
            forall|j: int| 0 <= j < p ==> text_lt(#[trigger] l0[j], v@),
        decreases chars@.len() - p,
    {
        assert(l0[p as int] == chars@[p as int]@);
        p = p + 1;
    }
    if p < chars.len() && eq_text(&chars[p], v) {
        assert(l0[p as int] == v@);
        return;
    }
    proof {
        assert forall|j: int| p <= j < l0.len() implies text_lt(v@, #[trigger] l0[j]) by {
            assert(l0[p as int] == chars@[p as int]@);
            lemma_text_lt_total(l0[p as int], v@);
            if j > p {
                assert(text_lt(l0[p as int], l0[j]));
                lemma_text_lt_transitive(v@, l0[p as int], l0[j]);
            }
        }
    }
    chars.insert(p, v.clone());
    labels.insert(p, s.clone());
    proof {
        let l1 = texts(labels@);
        assert(l1 =~= l0.insert(p as int, v@));
        assert forall|i: int, j: int| 0 <= i < j < l1.len() implies text_lt(#[trigger] l1[i], #[trigger] l1[j]) by {
            if j < p {
            } else if j == p {
            } else if i < p {
                assert(l1[j] == l0[j - 1]);
                if j - 1 >= p {
                    assert(text_lt(v@, l0[j - 1]));
                    lemma_text_lt_transitive(l0[i], v@, l0[j - 1]);
                }
            } else if i == p {
                assert(l1[j] == l0[j - 1]);
            } else {
                assert(l1[i] == l0[i - 1]);
                assert(l1[j] == l0[j - 1]);
            }
        }
        assert forall|t: Seq<char>| #[trigger] l1.contains(t) <==> (l0.contains(t) || t == v@) by {
            if l1.contains(t) {
                let k = choose|k: int| 0 <= k < l1.len() && l1[k] == t;
                if k < p {
                    assert(l0[k] == t);
                } else if k > p {
                    assert(l0[k - 1] == t);
                }
            }
            if l0.contains(t) {
                let k = choose|k: int| 0 <= k < l0.len() && l0[k] == t;
                if k < p {
                    assert(l1[k] == t);
                } else {
                    assert(l1[k + 1] == t);
                }
            }
            if t == v@ {
                assert(l1[p as int] == t);
            }
        }
        assert forall|j: int| 0 <= j < chars@.len() implies (#[trigger] chars@[j])@ == labels@[j]@ by {
            if j < p {
                assert(chars@[j] == old(chars)@[j]);
            } else if j > p {
                assert(chars@[j] == old(chars)@[j - 1]);
            }
        }
    }
}

} // verus!

verus! {

proof fn lemma_codes_before_bound(labels: Seq<Seq<char>>, j: nat)
    ensures
        codes_before(labels, j) <= j,
    decreases j,
{
    if j > 0 {
        lemma_codes_before_bound(labels, (j - 1) as nat);
    }
}

/// Label-encodes a text column: the distinct labels are sorted, every label
/// that is not a null spelling (`nan`, `NaN`, `<NA>`) gets the next code
/// from zero in that order, and each value is replaced by the code of its
/// label (none for a null spelling). Returns the codes of the values and the
/// label map.
pub fn label_encode(values: &[String]) -> (r: (Vec<Option<u64>>, LabelMap))
    ensures
        r.1.encodes(texts(values@)),
        r.0@.len() == values@.len(),
        forall|i: int|
            0 <= i < values@.len() ==> has_code(r.1.label_seq(), r.1.codes@, values@[i]@, #[trigger] r.0@[i]),
{
    let mut chars: Vec<Vec<char>> = Vec::new();
    let mut labels: Vec<String> = Vec::new();
    let mut vchars: Vec<Vec<char>> = Vec::new();
    for i in 0..values.len()
        invariant
            chars@.len() == labels@.len(),
            forall|j: int| 0 <= j < chars@.len() ==> (#[trigger] chars@[j])@ == labels@[j]@,
            strictly_sorted(texts(labels@)),
            forall|t: Seq<char>| #[trigger] texts(labels@).contains(t) <==> texts(values@.take(i as int)).contains(t),
            vchars@.len() == i,
            forall|k: int| 0 <= k < i ==> (#[trigger] vchars@[k])@ == values@[k]@,
    {
        let v = chars_of(values[i].as_str());
        let ghost before = texts(labels@);
        insert_sorted(&mut chars, &mut labels, &v, &values[i]);
        proof {
            let a = texts(values@.take(i as int));
            let b = texts(values@.take(i + 1));
            assert(b =~= a.push(values@[i as int]@));
            assert forall|t: Seq<char>| #[trigger] texts(labels@).contains(t) <==> b.contains(t) by {
                if b.contains(t) {
                    let k = choose|k: int| 0 <= k < b.len() && b[k] == t;
                    if k < i {
                        assert(a[k] == t);
                    }
                }
                if a.contains(t) {
                    let k = choose|k: int| 0 <= k < a.len() && a[k] == t;
                    assert(b[k] == t);
                }
                if t == v@ {
                    assert(b[i as int] == t);
                }
            }
        }
        vchars.push(v);
    }
    assert(values@.take(values@.len() as int) =~= values@);
    let ghost l = texts(labels@);
    let mut codes: Vec<Option<u64>> = Vec::new();
    let mut counter: u64 = 0;
    for j in 0..chars.len()
        invariant
            chars@.len() == labels@.len(),
            l == texts(labels@),
            forall|j: int| 0 <= j < chars@.len() ==> (#[trigger] chars@[j])@ == labels@[j]@,
            codes@.len() == j,
            counter == codes_before(l, j as nat),
            forall|k: int| 0 <= k < j ==> #[trigger] codes@[k] == code_at(l, k),
    {
        proof {
            lemma_codes_before_bound(l, j as nat);
            assert(l[j as int] == chars@[j as int]@);
        }
        let c = &chars[j];
        let null = (c.len() == 3 && c[0] == 'n' && c[1] == 'a' && c[2] == 'n')
            || (c.len() == 3 && c[0] == 'N' && c[1] == 'a' && c[2] == 'N')
            || (c.len() == 4 && c[0] == '<' && c[1] == 'N' && c[2] == 'A' && c[3] == '>');
        proof {
            if c@.len() == 3 && c@[0] == 'n' && c@[1] == 'a' && c@[2] == 'n' {
                assert(c@ =~= seq!['n', 'a', 'n']);
            }
            if c@.len() == 3 && c@[0] == 'N' && c@[1] == 'a' && c@[2] == 'N' {
                assert(c@ =~= seq!['N', 'a', 'N']);
            }
            if c@.len() == 4 && c@[0] == '<' && c@[1] == 'N' && c@[2] == 'A' && c@[3] == '>' {
                assert(c@ =~= seq!['<', 'N', 'A', '>']);
            }
            assert(null == is_null_label(l[j as int]));
        }
        if null {
            codes.push(None);
        } else {
            codes.push(Some(counter));
            counter = counter + 1;
        }
    }
    let map = LabelMap { labels, codes };
    assert(map.label_seq() == l);
    let mut encoded: Vec<Option<u64>> = Vec::new();
    for i in 0..values.len()
        invariant
            chars@.len() == map.labels@.len(),
            l == map.label_seq(),
            forall|j: int| 0 <= j < chars@.len() ==> (#[trigger] chars@[j])@ == map.labels@[j]@,
            map.codes@.len() == l.len(),
            forall|t: Seq<char>| #[trigger] l.contains(t) <==> texts(values@).contains(t),
            vchars@.len() == values@.len(),
            forall|k: int| 0 <= k < values@.len() ==> (#[trigger] vchars@[k])@ == values@[k]@,
            encoded@.len() == i,
            forall|k: int| 0 <= k < i ==> has_code(l, map.codes@, values@[k]@, #[trigger] encoded@[k]),
    {
        let ghost t = values@[i as int]@;
        assert(texts(values@)[i as int] == t);
        assert(l.contains(t));
        let mut j: usize = 0;
        let nl = chars.len();
        proof {
            let w = choose|w: int| 0 <= w < l.len() && l[w] == t;
            assert(0 <= w < l.len() && l[w] == t);
        }
        while !eq_text(&chars[j], &vchars[i])
            invariant
                chars@.len() == l.len(),
                l == map.label_seq(),
                forall|j: int| 0 <= j < chars@.len() ==> (#[trigger] chars@[j])@ == map.labels@[j]@,
                vchars@[i as int]@ == t,
                i < vchars@.len(),
                j < l.len(),
                l.len() == chars@.len(),
                nl == chars@.len(),
                exists|w: int| j <= w < l.len() && #[trigger] l[w] == t,
            decreases l.len() - j,
        {
            assert(l[j as int] == chars@[j as int]@);
            proof {
                let w = choose|w: int| j <= w < l.len() && #[trigger] l[w] == t;
                assert(w != j);
                assert(j + 1 <= w < l.len() && l[w] == t);
            }
            j = j + 1;
        }
        assert(l[j as int] == chars@[j as int]@);
        let ghost e0 = encoded@;
        encoded.push(map.codes[j]);
        proof {
            assert(has_code(l, map.codes@, values@[i as int]@, encoded@[i as int]));
            assert forall|k: int| 0 <= k < i + 1 implies has_code(l, map.codes@, values@[k]@, #[trigger] encoded@[k]) by {
                if k < i {
                    assert(encoded@[k] == e0[k]);
                }
            }
        }
    }
    (encoded, map)
}

} // verus!

verus! {

/// `rev[k]` is the label whose code is `k`.
pub open spec fn is_reverse_of(rev: Seq<Seq<char>>, map: LabelMap) -> bool {
    &&& forall|j: int|
        0 <= j < map.codes@.len() && #[trigger] map.codes@[j] is Some ==> map.codes@[j]->0 < rev.len()
            && rev[map.codes@[j]->0 as int] == map.label_seq()[j]
    &&& forall|k: int| 0 <= k < rev.len() ==> #[trigger] has_source(rev, map, k)
}

/// Some label of `map` has code `k` and is `rev[k]`.
pub open spec fn has_source(rev: Seq<Seq<char>>, map: LabelMap, k: int) -> bool {
    exists|j: int| #[trigger] code_source(rev, map, k, j)
}

/// Label `j` of `map` has code `k`, and `rev[k]` is that label.
pub open spec fn code_source(rev: Seq<Seq<char>>, map: LabelMap, k: int, j: int) -> bool {
    &&& 0 <= j < map.codes@.len()
    &&& map.codes@[j] is Some
    &&& map.codes@[j]->0 == k
    &&& rev[k] == map.label_seq()[j]
}

/// The labels of `map` by code: entry `k` is the label whose code is `k`.
pub fn reverse_map(map: &LabelMap) -> (rev: Vec<String>)
    requires
        map.codes@.len() == map.labels@.len(),
        forall|j: int| 0 <= j < map.codes@.len() ==> #[trigger] map.codes@[j] == code_at(map.label_seq(), j),
    ensures
        is_reverse_of(texts(rev@), *map),
{
    let ghost l = map.label_seq();
    let mut rev: Vec<String> = Vec::new();
    let ghost mut src: Seq<int> = Seq::empty();
    for j in 0..map.codes.len()
        invariant
            map.codes@.len() == map.labels@.len(),
            l == map.label_seq(),
            forall|j: int| 0 <= j < map.codes@.len() ==> #[trigger] map.codes@[j] == code_at(l, j),
            rev@.len() == codes_before(l, j as nat),
            src.len() == rev@.len(),
            forall|i: int|
                0 <= i < j && #[trigger] map.codes@[i] is Some ==> map.codes@[i]->0 < rev@.len()
                    && rev@[map.codes@[i]->0 as int]@ == l[i],
            forall|k: int|
                0 <= k < rev@.len() ==> 0 <= #[trigger] src[k] < j && map.codes@[src[k]] is Some && map.codes@[src[k]]->0 == k && rev@[k]@ == l[src[k]],
            forall|k: int| 0 <= k < rev@.len() ==> #[trigger] texts(rev@)[k] == rev@[k]@,
    {
        let ghost before = rev@;
        match &map.codes[j] {
            Some(_) => {
                proof {
                    lemma_codes_before_bound(l, j as nat);
                }
                rev.push(map.labels[j].clone());
                proof {
                    assert(l[j as int] == map.labels@[j as int]@);
                    assert(rev@[before.len() as int]@ == l[j as int]);
                    assert(map.codes@[j as int] == Some(codes_before(l, j as nat) as u64));
                    src = src.push(j as int);
                    assert forall|k: int|
                        0 <= k < rev@.len() implies 0 <= #[trigger] src[k] < j + 1 && map.codes@[src[k]] is Some && map.codes@[src[k]]->0 == k && rev@[k]@ == l[src[k]] by {
                        if k < before.len() {
                            assert(rev@[k] == before[k]);
                        }
                    }
                    assert forall|i: int|
                        0 <= i < j + 1 && #[trigger] map.codes@[i] is Some implies map.codes@[i]->0 < rev@.len()
                            && rev@[map.codes@[i]->0 as int]@ == l[i] by {
                        if i < j {
                            assert(rev@[map.codes@[i]->0 as int] == before[map.codes@[i]->0 as int]);
                        }
                    }
                }
            },
            None => {
                proof {
                    assert(is_null_label(l[j as int]));
                }
            },
        }
    }
    proof {
        lemma_reverse_from_sources(texts(rev@), *map, src);
    }
    rev
}

proof fn lemma_reverse_from_sources(rev: Seq<Seq<char>>, map: LabelMap, src: Seq<int>)
    requires
        src.len() == rev.len(),
        forall|i: int|
            0 <= i < map.codes@.len() && #[trigger] map.codes@[i] is Some ==> map.codes@[i]->0 < rev.len()
                && rev[map.codes@[i]->0 as int] == map.label_seq()[i],
        forall|k: int|
            0 <= k < rev.len() ==> 0 <= #[trigger] src[k] < map.codes@.len() && map.codes@[src[k]] is Some && map.codes@[src[k]]->0 == k && rev[k] == map.label_seq()[src[k]],
    ensures
        is_reverse_of(rev, map),
{
    assert forall|k: int| 0 <= k < rev.len() implies #[trigger] has_source(rev, map, k) by {
        assert(code_source(rev, map, k, src[k]));
    }
}


/// Decoding inverts encoding: a value with a code decodes, through the
/// reverse map, to the value itself, and a value has no code exactly when it
/// is a null spelling.
pub proof fn lemma_decode_encoded(map: LabelMap, rev: Seq<Seq<char>>, values: Seq<Seq<char>>, i: int, e: Option<u64>)
    requires
        map.encodes(values),
        is_reverse_of(rev, map),
        0 <= i < values.len(),
        has_code(map.label_seq(), map.codes@, values[i], e),
    ensures
        e is None <==> is_null_label(values[i]),
        e matches Some(k) ==> k < rev.len() && rev[k as int] == values[i],
{
    let l = map.label_seq();
    let j = choose|j: int| 0 <= j < l.len() && #[trigger] l[j] == values[i] && e == map.codes@[j];
    assert(map.codes@[j] == code_at(l, j));
}

/// Different labels of a map get different codes.
pub proof fn lemma_codes_distinct(map: LabelMap, a: int, b: int)
    requires
        map.codes@.len() == map.label_seq().len(),
        forall|j: int| 0 <= j < map.codes@.len() ==> #[trigger] map.codes@[j] == code_at(map.label_seq(), j),
        0 <= a < b < map.codes@.len(),
        map.codes@.len() <= u64::MAX,
        map.codes@[a] is Some,
    ensures
        map.codes@[a] != map.codes@[b],
{
    let l = map.label_seq();
    lemma_codes_before_bound(l, b as nat);
    lemma_codes_before_mono(l, (a + 1) as nat, b as nat);
    assert(map.codes@[a] == code_at(l, a));
    assert(map.codes@[b] == code_at(l, b));
    assert(codes_before(l, (a + 1) as nat) == codes_before(l, a as nat) + 1);
    lemma_codes_before_bound(l, a as nat);
}

proof fn lemma_codes_before_mono(l: Seq<Seq<char>>, a: nat, b: nat)
    requires
        a <= b,
    ensures
        codes_before(l, a) <= codes_before(l, b),
    decreases b,
{
    if a < b {
        lemma_codes_before_mono(l, a, (b - 1) as nat);
    }
}

} // verus!

verus! {

/// How the text columns of a table were encoded: for each encoded column
/// (in the order they were added) its index, its label map, and its labels by
/// code.
pub struct EncodingInfo {
    pub string_column_indices: Vec<usize>,
    pub _label_maps: Vec<LabelMap>,
    pub reverse_maps: Vec<Vec<String>>,
}

/// The label map lists distinct labels in increasing order and gives every
/// label the code [`code_at`] states.
pub open spec fn coded(map: LabelMap) -> bool {
    &&& strictly_sorted(map.label_seq())
    &&& map.codes@.len() == map.labels@.len()
    &&& forall|j: int| 0 <= j < map.codes@.len() ==> #[trigger] map.codes@[j] == code_at(map.label_seq(), j)
}

impl EncodingInfo {
    /// The three lists are parallel and each reverse map belongs to its label map.
    pub open spec fn wf(self) -> bool {
        &&& self._label_maps@.len() == self.string_column_indices@.len()
        &&& self.reverse_maps@.len() == self.string_column_indices@.len()
        &&& forall|p: int| 0 <= p < self._label_maps@.len() ==> coded(#[trigger] self._label_maps@[p])
            && is_reverse_of(texts(self.reverse_maps@[p]@), self._label_maps@[p])
    }

    /// No column is encoded yet.
    pub fn new() -> (e: EncodingInfo)
        ensures
            e.wf(),
            e.string_column_indices@.len() == 0,
    {
        EncodingInfo { string_column_indices: Vec::new(), _label_maps: Vec::new(), reverse_maps: Vec::new() }
    }

    /// Records that column `col_idx` was encoded with `map`.
    pub fn add_column(&mut self, col_idx: usize, map: LabelMap)
        requires
            old(self).wf(),
            coded(map),
        ensures
            final(self).wf(),
            final(self).string_column_indices@ == old(self).string_column_indices@.push(col_idx),
            final(self)._label_maps@ == old(self)._label_maps@.push(map),
            is_reverse_of(texts(final(self).reverse_maps@.last()@), map),
    {
        let rev = reverse_map(&map);
        self.string_column_indices.push(col_idx);
        self._label_maps.push(map);
        self.reverse_maps.push(rev);
        proof {
            assert forall|p: int| 0 <= p < self._label_maps@.len() implies coded(#[trigger] self._label_maps@[p])
                && is_reverse_of(texts(self.reverse_maps@[p]@), self._label_maps@[p]) by {
                if p < old(self)._label_maps@.len() {
                    assert(self._label_maps@[p] == old(self)._label_maps@[p]);
                    assert(self.reverse_maps@[p] == old(self).reverse_maps@[p]);
                }
            }
        }
    }

    /// The label with code `code` in column `col_idx` (by the first record of
    /// that column); `None` when the column is not encoded or no label has
    /// that code.
    pub fn decode(&self, col_idx: usize, code: u64) -> (r: Option<String>)
        requires
            self.wf(),
        ensures
            match r {
                Some(s) => exists|p: int|
                    0 <= p < self.string_column_indices@.len() && #[trigger] self.string_column_indices@[p] == col_idx
                        && (forall|q: int| 0 <= q < p ==> #[trigger] self.string_column_indices@[q] != col_idx)
                        && code < self.reverse_maps@[p]@.len() && s@ == self.reverse_maps@[p]@[code as int]@,
                None => forall|p: int|
                    0 <= p < self.string_column_indices@.len() && #[trigger] self.string_column_indices@[p] == col_idx
                        && (forall|q: int| 0 <= q < p ==> #[trigger] self.string_column_indices@[q] != col_idx)
                        ==> code >= self.reverse_maps@[p]@.len(),
            },
    {
        let mut p: usize = 0;
        while p < self.string_column_indices.len()
            invariant
                self.wf(),
                p <= self.string_column_indices@.len(),
                forall|q: int| 0 <= q < p ==> #[trigger] self.string_column_indices@[q] != col_idx,
            decreases self.string_column_indices@.len() - p,
        {
            if self.string_column_indices[p] == col_idx {
                let rev = &self.reverse_maps[p];
                if code < rev.len() as u64 {
                    let s = rev[code as usize].clone();
                    return Some(s);
                }
                return None;
            }
            p = p + 1;
        }
        None
    }
}


/// The encoding of a table reads back: in every encoded column, a label that
/// is not a null spelling has code `k` exactly when its reverse map holds the
/// label at `k`, and every entry of the reverse map is the label of its code.
pub proof fn lemma_info_round_trip(info: EncodingInfo, p: int, j: int, k: u64)
    requires
        info.wf(),
        0 <= p < info.string_column_indices@.len(),
        0 <= j < info._label_maps@[p].label_seq().len(),
        !is_null_label(info._label_maps@[p].label_seq()[j]),
    ensures
        ({
            let map = info._label_maps@[p];
            let rev = texts(info.reverse_maps@[p]@);
            map.codes@[j] == Some(k) <==> (k < rev.len() && rev[k as int] == map.label_seq()[j])
        }),
        k < info.reverse_maps@[p]@.len() ==> has_source(texts(info.reverse_maps@[p]@), info._label_maps@[p], k as int),
{
    let map = info._label_maps@[p];
    let rev = texts(info.reverse_maps@[p]@);
    let l = map.label_seq();
    assert(coded(map));
    assert(is_reverse_of(rev, map));
    assert(map.codes@[j] == code_at(l, j));
    if map.codes@[j] is Some {
        assert(map.codes@[j]->0 < rev.len() && rev[map.codes@[j]->0 as int] == l[j]);
    }
    if k < rev.len() && rev[k as int] == l[j] {
        assert(has_source(rev, map, k as int));
        let j2 = choose|j2: int| #[trigger] code_source(rev, map, k as int, j2);
        assert(l[j2] == l[j]);
        if j2 < j {
            assert(text_lt(l[j2], l[j]));
            lemma_text_lt_irreflexive(l[j]);
        } else if j < j2 {
            assert(text_lt(l[j], l[j2]));
            lemma_text_lt_irreflexive(l[j]);
        }
    }
    if k < rev.len() {
        assert(has_source(rev, map, k as int));
    }
}

} // verus!
