//! Encoding categorical labels as consecutive integer codes.
//!
//! `fit` learns the distinct labels in sorted order (the order `String`
//! compares by); a label's code is its position in that list.

use vstd::prelude::*;

use crate::error::RegressorError;
use crate::order::{label_less, label_lt, lemma_label_lt_strict_total};

verus! {

/// The character sequences of a sequence of strings.
pub open spec fn label_views(s: Seq<String>) -> Seq<Seq<char>> {
    s.map_values(|x: String| x@)
}

/// Every label of `c` sorts strictly before every later one.
pub open spec fn strictly_sorted(c: Seq<Seq<char>>) -> bool {
    forall|i: int, j: int| 0 <= i < j < c.len() ==> label_lt(#[trigger] c[i], #[trigger] c[j])
}

/// `c` is the sorted list of the distinct labels of `labels`.
pub open spec fn is_class_list(c: Seq<Seq<char>>, labels: Seq<Seq<char>>) -> bool {
    &&& strictly_sorted(c)
    &&& forall|x: Seq<char>| c.contains(x) <==> labels.contains(x)
}

/// `codes` gives, for each label, a position of `c` that holds it.
pub open spec fn encodes(c: Seq<Seq<char>>, labels: Seq<Seq<char>>, codes: Seq<usize>) -> bool {
    &&& codes.len() == labels.len()
    &&& forall|i: int|
        0 <= i < codes.len() ==> #[trigger] codes[i] < c.len() && c[codes[i] as int] == labels[i]
}

/// The labels that `codes` stand for in `c`.
pub open spec fn decode(c: Seq<Seq<char>>, codes: Seq<usize>) -> Seq<Seq<char>> {
    codes.map_values(|k: usize| c[k as int])
}

/// `e` is an `InvalidInput` error whose text is `msg`.
pub open spec fn is_invalid_input_with(e: RegressorError, msg: Seq<char>) -> bool {
    e matches RegressorError::InvalidInput(m) && m@ == msg
}

/// The character of a decimal digit.
pub open spec fn digit_char(d: nat) -> char {
    (48 + d) as char
}

/// The decimal digits of `n`, most significant first, without leading zeros.
pub open spec fn decimal(n: nat) -> Seq<char>
    decreases n,
{
    if n < 10 {
        seq![digit_char(n)]
    } else {
        decimal(n / 10).push(digit_char(n % 10))
    }
}

/// The text of the error for a label that was not seen by `fit`.
pub open spec fn unknown_label_message(label: Seq<char>) -> Seq<char> {
    "unknown label: "@ + label
}

/// The text of the error for a code that names no class.
pub open spec fn code_out_of_range_message(code: usize) -> Seq<char> {
    "code out of range: "@ + decimal(code as nat)
}

/// The one-character text of a decimal digit.
fn digit_text(d: usize) -> (s: &'static str)
    requires
        d < 10,
    ensures
        s@ == seq![digit_char(d as nat)],
{
    proof {
        reveal_strlit("0");
        reveal_strlit("1");
        reveal_strlit("2");
        reveal_strlit("3");
        reveal_strlit("4");
        reveal_strlit("5");
        reveal_strlit("6");
        reveal_strlit("7");
        reveal_strlit("8");
        reveal_strlit("9");
    }
    match d {
        0 => "0",
        1 => "1",
        2 => "2",
        3 => "3",
        4 => "4",
        5 => "5",
        6 => "6",
        7 => "7",
        8 => "8",
        _ => "9",
    }
}

/// Writes `n` in decimal.
fn decimal_string(n: usize) -> (s: String)
    ensures
        s@ == decimal(n as nat),
    decreases n,
{
    if n < 10 {
        String::from_str(digit_text(n))
    } else {
        let mut s = decimal_string(n / 10);
        s.append(digit_text(n % 10));
        s
    }
}

/// Dropping the first label keeps a list strictly sorted, and the dropped
/// label is no longer in it.
proof fn lemma_drop_first_sorted(a: Seq<Seq<char>>)
    requires
        strictly_sorted(a),
        a.len() > 0,
    ensures
        strictly_sorted(a.drop_first()),
        forall|x: Seq<char>| #[trigger]
            a.drop_first().contains(x) <==> (a.contains(x) && x != a[0]),
{
    let t = a.drop_first();
    assert forall|i: int, j: int| 0 <= i < j < t.len() implies label_lt(
        #[trigger] t[i],
        #[trigger] t[j],
    ) by {
        assert(t[i] == a[i + 1] && t[j] == a[j + 1]);
    }
    assert forall|x: Seq<char>| #[trigger] t.contains(x) <==> (a.contains(x) && x != a[0]) by {
        if t.contains(x) {
            let i = choose|i: int| 0 <= i < t.len() && t[i] == x;
            assert(a[i + 1] == x);
            assert(label_lt(a[0], a[i + 1]));
            lemma_label_lt_strict_total(x, x, x);
        }
        if a.contains(x) && x != a[0] {
            let i = choose|i: int| 0 <= i < a.len() && a[i] == x;
            assert(t[i - 1] == x);
        }
    }
}

/// Two strictly sorted label lists that hold the same labels are equal.
proof fn lemma_sorted_same_labels_equal(a: Seq<Seq<char>>, b: Seq<Seq<char>>)
    requires
        strictly_sorted(a),
        strictly_sorted(b),
        forall|x: Seq<char>| a.contains(x) <==> b.contains(x),
    ensures
        a == b,
    decreases a.len(),
{
    if a.len() == 0 {
        if b.len() > 0 {
            assert(b.contains(b[0]));
        }
        assert(a =~= b);
    } else {
        assert(a.contains(a[0]));
        assert(b.contains(a[0]));
        let j = choose|j: int| 0 <= j < b.len() && b[j] == a[0];
        assert(b.contains(b[0]));
        let i = choose|i: int| 0 <= i < a.len() && a[i] == b[0];
        if j > 0 {
            assert(label_lt(b[0], b[j]));
            lemma_label_lt_strict_total(a[0], b[0], a[0]);
            if i > 0 {
                assert(label_lt(a[0], a[i]));
            }
        }
        assert(a[0] == b[0]);
        lemma_drop_first_sorted(a);
        lemma_drop_first_sorted(b);
        assert forall|x: Seq<char>| a.drop_first().contains(x) <==> b.drop_first().contains(x) by {
            assert(a.drop_first().contains(x) <==> (a.contains(x) && x != a[0]));
            assert(b.drop_first().contains(x) <==> (b.contains(x) && x != b[0]));
        }
        lemma_sorted_same_labels_equal(a.drop_first(), b.drop_first());
        assert(a =~= seq![a[0]] + a.drop_first());
        assert(b =~= seq![b[0]] + b.drop_first());
    }
}

/// The classes are determined by the labels fitted on, up to order and
/// repetition: two label sequences that hold the same labels, in any order
/// and with any repetitions, have the same class list.
pub proof fn lemma_class_list_determined(
    c1: Seq<Seq<char>>,
    labels1: Seq<Seq<char>>,
    c2: Seq<Seq<char>>,
    labels2: Seq<Seq<char>>,
)
    requires
        is_class_list(c1, labels1),
        is_class_list(c2, labels2),
        forall|x: Seq<char>| labels1.contains(x) <==> labels2.contains(x),
    ensures
        c1 == c2,
{
    assert forall|x: Seq<char>| c1.contains(x) <==> c2.contains(x) by {
        assert(c1.contains(x) <==> labels1.contains(x));
        assert(c2.contains(x) <==> labels2.contains(x));
    }
    lemma_sorted_same_labels_equal(c1, c2);
}

/// Each class appears once in the class list, so a label has exactly one
/// code: two encodings of the same labels against the same classes agree.
pub proof fn lemma_codes_determined(
    c: Seq<Seq<char>>,
    labels: Seq<Seq<char>>,
    codes1: Seq<usize>,
    codes2: Seq<usize>,
)
    requires
        strictly_sorted(c),
        encodes(c, labels, codes1),
        encodes(c, labels, codes2),
    ensures
        codes1 == codes2,
{
    assert forall|i: int| 0 <= i < codes1.len() implies codes1[i] == codes2[i] by {
        let p = codes1[i] as int;
        let q = codes2[i] as int;
        assert(c[p] == labels[i] && c[q] == labels[i]);
        lemma_label_lt_strict_total(c[p], c[q], c[p]);
        if p < q {
            assert(label_lt(c[p], c[q]));
        } else if q < p {
            assert(label_lt(c[q], c[p]));
        }
    }
    assert(codes1 =~= codes2);
}

/// Decoding the codes of labels gives the labels back.
pub proof fn lemma_decode_encode(c: Seq<Seq<char>>, labels: Seq<Seq<char>>, codes: Seq<usize>)
    requires
        encodes(c, labels, codes),
    ensures
        decode(c, codes) == labels,
{
    assert(decode(c, codes) =~= labels);
}

/// The codes of the labels a class list was learned from are exactly the
/// consecutive integers `0..n_classes`.
pub proof fn lemma_codes_consecutive(c: Seq<Seq<char>>, labels: Seq<Seq<char>>, codes: Seq<usize>)
    requires
        is_class_list(c, labels),
        encodes(c, labels, codes),
    ensures
        forall|k: usize| codes.contains(k) <==> k < c.len(),
{
    assert forall|k: usize| codes.contains(k) <==> k < c.len() by {
        if codes.contains(k) {
            let i = choose|i: int| 0 <= i < codes.len() && codes[i] == k;
            assert(codes[i] < c.len());
        }
        if k < c.len() {
            assert(c.contains(c[k as int]));
            assert(labels.contains(c[k as int]));
            let i = choose|i: int| 0 <= i < labels.len() && labels[i] == c[k as int];
            assert(c[codes[i] as int] == labels[i]);
            lemma_codes_agree_on_class(c, codes[i] as int, k as int);
            assert(codes[i] == k);
        }
    }
}

/// In a strictly sorted list a label sits at one position only.
proof fn lemma_codes_agree_on_class(c: Seq<Seq<char>>, p: int, q: int)
    requires
        strictly_sorted(c),
        0 <= p < c.len(),
        0 <= q < c.len(),
        c[p] == c[q],
    ensures
        p == q,
{
    lemma_label_lt_strict_total(c[p], c[p], c[p]);
    if p < q {
        assert(label_lt(c[p], c[q]));
    } else if q < p {
        assert(label_lt(c[q], c[p]));
    }
}

/// Maps categorical labels to consecutive integer codes `0..n_classes`,
/// with the classes ordered as `String`s compare.
#[derive(Debug, Clone)]
pub struct LabelEncoder {
    classes: Option<Vec<String>>,
}

impl View for LabelEncoder {
    type V = Option<Seq<Seq<char>>>;

    closed spec fn view(&self) -> Option<Seq<Seq<char>>> {
        match self.classes {
            Some(c) => Some(label_views(c@)),
            None => None,
        }
    }
}

/// Finds the position of `label` in `classes`.
fn position(classes: &Vec<String>, label: &String) -> (r: Option<usize>)
    ensures
        r matches Some(k) ==> k < classes@.len() && classes@[k as int]@ == label@ && forall|i: int|
            0 <= i < k ==> classes@[i]@ != label@,
        r is None ==> !label_views(classes@).contains(label@),
{
    let mut k: usize = 0;
    while k < classes.len()
        invariant
            k <= classes@.len(),
            forall|i: int| 0 <= i < k ==> classes@[i]@ != label@,
        decreases classes@.len() - k,
    {
        if classes[k] == *label {
            return Some(k);
        }
        k = k + 1;
    }
    proof {
        if label_views(classes@).contains(label@) {
            let i = choose|i: int| 0 <= i < classes@.len() && label_views(classes@)[i] == label@;
            assert(classes@[i]@ == label@);
        }
    }
    None
}

/// Inserting `x` where it belongs keeps a strictly sorted list strictly sorted.
proof fn lemma_insert_keeps_sorted(c: Seq<Seq<char>>, k: int, x: Seq<char>)
    requires
        strictly_sorted(c),
        0 <= k <= c.len(),
        forall|i: int| 0 <= i < k ==> label_lt(#[trigger] c[i], x),
        k < c.len() ==> label_lt(x, c[k]),
    ensures
        strictly_sorted(c.insert(k, x)),
{
    let n = c.insert(k, x);
    assert forall|i: int, j: int| 0 <= i < j < n.len() implies label_lt(
        #[trigger] n[i],
        #[trigger] n[j],
    ) by {
        if j < k {
            assert(n[i] == c[i] && n[j] == c[j]);
        } else if j == k {
            assert(n[i] == c[i]);
        } else if i == k {
            assert(n[j] == c[j - 1]);
            if j - 1 > k {
                lemma_label_lt_strict_total(x, c[k], c[j - 1]);
            }
        } else if i < k {
            assert(n[i] == c[i] && n[j] == c[j - 1]);
            if i != j - 1 {
                assert(label_lt(c[i], c[j - 1]));
            } else {
                lemma_label_lt_strict_total(c[i], x, c[k]);
            }
        } else {
            assert(n[i] == c[i - 1] && n[j] == c[j - 1]);
        }
    }
}

impl LabelEncoder {
    /// An encoder that has not been fitted.
    pub fn new() -> (r: LabelEncoder)
        ensures
            r@ is None,
    {
        LabelEncoder { classes: None }
    }

    /// Learns the sorted list of distinct labels. An empty input is refused
    /// and leaves the encoder as it was.
    pub fn fit(&mut self, labels: &[String]) -> (r: Result<(), RegressorError>)
        ensures
            labels@.len() == 0 ==> (r matches Err(RegressorError::EmptyInput)) && final(self)@
                == old(self)@,
            labels@.len() > 0 ==> r is Ok && (final(self)@ matches Some(c) && is_class_list(
                c,
                label_views(labels@),
            )),
    {
        if labels.len() == 0 {
            return Err(RegressorError::EmptyInput);
        }
        let mut classes: Vec<String> = Vec::new();
        let mut n: usize = 0;
        while n < labels.len()
            invariant
                n <= labels@.len(),
                is_class_list(label_views(classes@), label_views(labels@.take(n as int))),
            decreases labels@.len() - n,
        {
            let label = &labels[n];
            let ghost old_views = label_views(classes@);
            let mut k: usize = 0;
            while k < classes.len() && label_less(&classes[k], label)
                invariant
                    k <= classes@.len(),
                    forall|i: int| 0 <= i < k ==> label_lt(#[trigger] classes@[i]@, label@),
                decreases classes@.len() - k,
            {
                k = k + 1;
            }
            assert(label_views(labels@.take(n + 1)) =~= label_views(labels@.take(n as int)).push(
                label@,
            ));
            let ghost prefix = label_views(labels@.take(n as int));
            assert forall|x: Seq<char>| prefix.push(label@).contains(x) <==> (prefix.contains(x)
                || x == label@) by {
                if prefix.contains(x) {
                    let i = choose|i: int| 0 <= i < prefix.len() && prefix[i] == x;
                    assert(prefix.push(label@)[i] == x);
                }
                if x == label@ {
                    assert(prefix.push(label@)[prefix.len() as int] == x);
                }
            }
            if k < classes.len() && classes[k] == *label {
                assert(old_views[k as int] == label@);
                assert(label_views(classes@) == old_views);
            } else {
                proof {
                    if k < classes@.len() {
                        lemma_label_lt_strict_total(classes@[k as int]@, label@, label@);
                    }
                    assert forall|i: int| 0 <= i < k implies label_lt(
                        #[trigger] old_views[i],
                        label@,
                    ) by {
                        assert(old_views[i] == classes@[i]@);
                    }
                    lemma_insert_keeps_sorted(old_views, k as int, label@);
                }
                classes.insert(k, label.clone());
                assert(label_views(classes@) =~= old_views.insert(k as int, label@));
                assert forall|x: Seq<char>| label_views(classes@).contains(x) <==> (
                old_views.contains(x) || x == label@) by {
                    if old_views.contains(x) {
                        let i = choose|i: int| 0 <= i < old_views.len() && old_views[i] == x;
                        if i < k {
                            assert(label_views(classes@)[i] == x);
                        } else {
                            assert(label_views(classes@)[i + 1] == x);
                        }
                    }
                    if x == label@ {
                        assert(label_views(classes@)[k as int] == x);
                    }
                    if label_views(classes@).contains(x) {
                        let i = choose|i: int|
                            0 <= i < label_views(classes@).len() && label_views(classes@)[i] == x;
                        if i < k {
                            assert(old_views[i] == x);
                        } else if i > k {
                            assert(old_views[i - 1] == x);
                        }
                    }
                }
            }
            assert forall|x: Seq<char>| label_views(classes@).contains(x) <==> label_views(
                labels@.take(n + 1),
            ).contains(x) by {
                assert(old_views.contains(x) <==> prefix.contains(x));
                assert(prefix.push(label@).contains(x) <==> (prefix.contains(x) || x == label@));
            }
            n = n + 1;
        }
        assert(labels@.take(labels@.len() as int) =~= labels@);
        self.classes = Some(classes);
        Ok(())
    }

    /// Encodes each label as the position of its class. Refused before `fit`;
    /// a label that `fit` did not see is refused with the first such label named.
    pub fn transform(&self, labels: &[String]) -> (r: Result<Vec<usize>, RegressorError>)
        ensures
            self@ is None ==> r matches Err(RegressorError::NotFitted),
            self@ matches Some(c) ==> (r is Ok <==> forall|i: int|
                0 <= i < labels@.len() ==> c.contains(#[trigger] labels@[i]@)),
            self@ matches Some(c) ==> (r matches Ok(codes) ==> encodes(
                c,
                label_views(labels@),
                codes@,
            ) && forall|i: int, k: int|
                0 <= i < codes@.len() && 0 <= k < codes@[i] ==> #[trigger] c[k] != #[trigger] labels@[i]@),
            self@ matches Some(c) ==> (r matches Err(e) ==> exists|i: int|
                0 <= i < labels@.len() && !c.contains(#[trigger] labels@[i]@) && (forall|j: int|
                    0 <= j < i ==> c.contains(#[trigger] labels@[j]@)) && is_invalid_input_with(
                    e,
                    unknown_label_message(labels@[i]@),
                )),
    {
        let classes = match &self.classes {
            Some(c) => c,
            None => {
                return Err(RegressorError::NotFitted);
            },
        };
        let ghost c = label_views(classes@);
        let mut codes: Vec<usize> = Vec::new();
        let mut n: usize = 0;
        while n < labels.len()
            invariant
                self@ == Some(c),
                c == label_views(classes@),
                n <= labels@.len(),
                codes@.len() == n,
                forall|i: int|
                    0 <= i < n ==> #[trigger] codes@[i] < c.len() && c[codes@[i] as int]
                        == labels@[i]@,
                forall|i: int, k: int|
                    0 <= i < n && 0 <= k < codes@[i] ==> #[trigger] c[k] != #[trigger] labels@[i]@,
            decreases labels@.len() - n,
        {
            match position(classes, &labels[n]) {
                Some(k) => {
                    codes.push(k);
                    n = n + 1;
                },
                None => {
                    let mut msg = String::from_str("unknown label: ");
                    msg.append(labels[n].as_str());
                    let e = RegressorError::InvalidInput(msg);
                    assert(forall|j: int| 0 <= j < n ==> c.contains(#[trigger] labels@[j]@)) by {
                        assert forall|j: int| 0 <= j < n implies c.contains(
                            #[trigger] labels@[j]@,
                        ) by {
                            assert(c[codes@[j] as int] == labels@[j]@);
                        }
                    }
                    assert(!c.contains(labels@[n as int]@));
                    return Err(e);
                },
            }
        }
        proof {
            assert forall|i: int| 0 <= i < labels@.len() implies c.contains(
                #[trigger] labels@[i]@,
            ) by {
                assert(c[codes@[i] as int] == labels@[i]@);
            }
        }
        Ok(codes)
    }

    /// Learns the classes of `labels` and encodes them in one step.
    pub fn fit_transform(&mut self, labels: &[String]) -> (r: Result<Vec<usize>, RegressorError>)
        ensures
            labels@.len() == 0 ==> (r matches Err(RegressorError::EmptyInput)) && final(self)@
                == old(self)@,
            labels@.len() > 0 ==> (final(self)@ matches Some(c) && is_class_list(
                c,
                label_views(labels@),
            ) && (r matches Ok(codes) && encodes(c, label_views(labels@), codes@))),
    {
        self.fit(labels)?;
        let r = self.transform(labels);
        proof {
            let c = self@->0;
            assert forall|i: int| 0 <= i < labels@.len() implies c.contains(
                #[trigger] labels@[i]@,
            ) by {
                assert(label_views(labels@)[i] == labels@[i]@);
            }
        }
        r
    }

    /// Maps codes back to the labels they stand for. Refused before `fit`;
    /// a code that names no class is refused with the first such code named.
    pub fn inverse_transform(&self, codes: &[usize]) -> (r: Result<Vec<String>, RegressorError>)
        ensures
            self@ is None ==> r matches Err(RegressorError::NotFitted),
            self@ matches Some(c) ==> (r is Ok <==> forall|i: int|
                0 <= i < codes@.len() ==> #[trigger] codes@[i] < c.len()),
            self@ matches Some(c) ==> (r matches Ok(labels) ==> label_views(labels@) == decode(
                c,
                codes@,
            )),
            self@ matches Some(c) ==> (r matches Err(e) ==> exists|i: int|
                0 <= i < codes@.len() && #[trigger] codes@[i] >= c.len() && (forall|j: int|
                    0 <= j < i ==> #[trigger] codes@[j] < c.len()) && is_invalid_input_with(
                    e,
                    code_out_of_range_message(codes@[i]),
                )),
    {
        let classes = match &self.classes {
            Some(c) => c,
            None => {
                return Err(RegressorError::NotFitted);
            },
        };
        let ghost c = label_views(classes@);
        let mut labels: Vec<String> = Vec::new();
        let mut n: usize = 0;
        while n < codes.len()
            invariant
                self@ == Some(c),
                c == label_views(classes@),
                n <= codes@.len(),
                labels@.len() == n,
                forall|j: int| 0 <= j < n ==> #[trigger] codes@[j] < c.len(),
                forall|i: int| 0 <= i < n ==> #[trigger] labels@[i]@ == c[codes@[i] as int],
            decreases codes@.len() - n,
        {
            let code = codes[n];
            if code >= classes.len() {
                let mut msg = String::from_str("code out of range: ");
                let digits = decimal_string(code);
                msg.append(digits.as_str());
                return Err(RegressorError::InvalidInput(msg));
            }
            labels.push(classes[code].clone());
            n = n + 1;
        }
        assert(label_views(labels@) =~= decode(c, codes@));
        Ok(labels)
    }

    /// An encoder holding `classes` as its classes in code order, or an
    /// unfitted one for `None`: how a stored encoder is restored.
    pub fn from_classes(classes: Option<Vec<String>>) -> (r: LabelEncoder)
        ensures
            classes is None ==> r@ is None,
            classes matches Some(c) ==> r@ == Some(label_views(c@)),
    {
        LabelEncoder { classes }
    }

    /// The learned classes in code order, or `None` before `fit`.
    pub fn classes(&self) -> (r: Option<&[String]>)
        ensures
            self@ is None ==> r is None,
            self@ matches Some(c) ==> (r matches Some(s) && label_views(s@) == c),
    {
        match &self.classes {
            Some(c) => Some(c.as_slice()),
            None => None,
        }
    }
}

impl Default for LabelEncoder {
    /// An encoder that has not been fitted.
    fn default() -> (r: LabelEncoder)
        ensures
            r@ is None,
    {
        LabelEncoder::new()
    }
}

} // verus!
