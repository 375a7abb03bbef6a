use vstd::prelude::*;
use std::collections::HashMap;

verus! {

broadcast use vstd::std_specs::hash::group_hash_axioms;

/// The author a paragraph is attributed to.
#[derive(Clone, Copy, Debug, PartialEq, Eq, Structural, Hash)]
pub enum Author {
    Austen,
    Shelley,
}

/// A decision tree over word counts: an inner node looks at the count of one
/// word and goes to the child stored under that count.
#[derive(Debug)]
pub enum DecisionTreeNode {
    Internal { attribute: String, children: HashMap<u32, DecisionTreeNode> },
    Leaf { class_label: Author },
}

/// Paragraphs as word counts, each with the author it came from.
#[derive(Debug, Clone)]
pub struct Dataset {
    pub features: Vec<HashMap<String, u32>>,
    pub labels: Vec<Author>,
}

/// `pat` occurs in `s` as a run of consecutive characters.
pub open spec fn occurs_in(s: Seq<char>, pat: Seq<char>) -> bool {
    exists|i: int| 0 <= i <= s.len() - pat.len() && #[trigger] s.subrange(i, i + pat.len()) == pat
}

/// Whether `pat` occurs in `s`.
fn contains_text(s: &str, pat: &str) -> (r: bool)
    ensures
        r == occurs_in(s@, pat@),
{
    let n = s.unicode_len();
    let m = pat.unicode_len();
    if m > n {
        return false;
    }
    let mut i: usize = 0;
    while i <= n - m
        invariant
            n == s@.len(),
            m == pat@.len(),
            m <= n,
            forall|k: int| 0 <= k < i ==> #[trigger] s@.subrange(k, k + m) != pat@,
        decreases n - m + 1 - i,
    {
        let mut j: usize = 0;
        let mut same = true;
        while j < m
            invariant
                n == s@.len(),
                m == pat@.len(),
                i + m <= n,
                j <= m,
                same == (forall|l: int| 0 <= l < j ==> s@[i + l] == pat@[l]),
            decreases m - j,
        {
            if s.get_char(i + j) != pat.get_char(j) {
                same = false;
            }
            j = j + 1;
        }
        if same {
            assert(s@.subrange(i as int, i + m) =~= pat@);
            return true;
        }
        proof {
            let l = choose|l: int| 0 <= l < m && s@[i + l] != pat@[l];
            assert(s@.subrange(i as int, i + m)[l] != pat@[l]);
        }
        i = i + 1;
    }
    false
}

/// The author of a file, by its name: Austen where "austen" occurs in it,
/// Shelley otherwise.
pub fn label_paragraph(file_name: &str) -> (r: Author)
    ensures
        r == (if occurs_in(file_name@, "austen"@) {
            Author::Austen
        } else {
            Author::Shelley
        }),
{
    if contains_text(file_name, "austen") {
        Author::Austen
    } else {
        Author::Shelley
    }
}

/// A paragraph break starts at `j`: two newlines in a row.
pub open spec fn is_break(t: Seq<char>, j: int) -> bool {
    0 <= j && j + 1 < t.len() && t[j] == '\n' && t[j + 1] == '\n'
}

/// The first paragraph break at or after `from`.
pub open spec fn first_break(t: Seq<char>, from: int) -> Option<int>
    decreases t.len() - from,
{
    if from < 0 || from + 1 >= t.len() {
        None
    } else if is_break(t, from) {
        Some(from)
    } else {
        first_break(t, from + 1)
    }
}

pub proof fn lemma_first_break_range(t: Seq<char>, from: int)
    requires
        0 <= from,
    ensures
        first_break(t, from) matches Some(j) ==> from <= j && is_break(t, j),
    decreases t.len() - from,
{
    if from + 1 < t.len() && !is_break(t, from) {
        lemma_first_break_range(t, from + 1);
    }
}

/// The paragraphs of a text: the pieces between paragraph breaks, each break
/// taken at its first newline, from left to right.
pub open spec fn paragraphs(t: Seq<char>) -> Seq<Seq<char>>
    decreases t.len(),
{
    match first_break(t, 0) {
        Some(j) => {
            proof {
                lemma_first_break_range(t, 0);
            }
            seq![t.subrange(0, j)] + paragraphs(t.subrange(j + 2, t.len() as int))
        },
        None => seq![t],
    }
}

/// Relies on str::chars: the characters of `s`, in order.
#[verifier::external_body]
fn chars_of(s: &str) -> (r: Vec<char>)
    ensures
        r@ == s@,
{
    s.chars().collect()
}

/// Splits a text into paragraphs at each pair of newlines.
pub fn tokenize_paragraphs(text: &str) -> (r: Vec<&str>)
    ensures
        r@.map_values(|p: &str| p@) == paragraphs(text@),
{
    let chars = chars_of(text);
    let n = chars.len();
    let mut pieces: Vec<&str> = Vec::new();
    let mut start: usize = 0;
    let mut j: usize = 0;
    assert(text@.subrange(0, n as int) =~= text@);
    assert(pieces@.map_values(|p: &str| p@) + paragraphs(text@) =~= paragraphs(text@));
    while j < n && j + 1 < n
        invariant
            chars@ == text@,
            n == text@.len(),
            start <= j <= n,
            paragraphs(text@) == pieces@.map_values(|p: &str| p@) + paragraphs(
                text@.subrange(start as int, n as int),
            ),
            first_break(text@.subrange(start as int, n as int), 0) == first_break(
                text@.subrange(start as int, n as int),
                j - start,
            ),
        decreases n - j,
    {
        let ghost u = text@.subrange(start as int, n as int);
        assert(is_break(u, j - start) == is_break(text@, j as int));
        if chars[j] == '\n' && chars[j + 1] == '\n' {
            let piece = text.substring_char(start, j);
            let ghost rest = text@.subrange(j + 2, n as int);
            assert(u.subrange(0, j - start) =~= piece@);
            assert(u.subrange(j - start + 2, u.len() as int) =~= rest);
            assert(paragraphs(u) == seq![piece@] + paragraphs(rest));
            let ghost before = pieces@.map_values(|p: &str| p@);
            pieces.push(piece);
            assert(pieces@.map_values(|p: &str| p@) =~= before.push(piece@));
            assert(before + paragraphs(u) =~= before.push(piece@) + paragraphs(rest));
            start = j + 2;
            j = j + 2;
        } else {
            j = j + 1;
        }
    }
    let ghost u = text@.subrange(start as int, n as int);
    assert(first_break(u, j - start) is None);
    let last = text.substring_char(start, n);
    let ghost before = pieces@.map_values(|p: &str| p@);
    pieces.push(last);
    assert(paragraphs(u) == seq![u]);
    assert(last@ =~= u);
    assert(pieces@.map_values(|p: &str| p@) =~= before + seq![u]);
    pieces
}

/// The count that a word-count map holds for a word.
pub uninterp spec fn count_of(counts: Map<String, u32>, word: Seq<char>) -> Option<u32>;

/// Relies on HashMap::get: the count stored under the key equal to `word`.
#[verifier::external_body]
fn lookup_count(counts: &HashMap<String, u32>, word: &str) -> (r: Option<u32>)
    ensures
        r == count_of(counts@, word@),
{
    counts.get(word).copied()
}

/// The count of `word` summed over the first `n` paragraphs by `who`; a
/// paragraph without the word counts 0.
pub open spec fn author_total(
    features: Seq<HashMap<String, u32>>,
    labels: Seq<Author>,
    word: Seq<char>,
    who: Author,
    n: int,
) -> int
    decreases n,
{
    if n <= 0 {
        0
    } else {
        author_total(features, labels, word, who, n - 1) + if labels[n - 1] == who {
            match count_of(features[n - 1]@, word) {
                Some(c) => c as int,
                None => 0,
            }
        } else {
            0
        }
    }
}

proof fn lemma_author_total_bound(
    features: Seq<HashMap<String, u32>>,
    labels: Seq<Author>,
    word: Seq<char>,
    who: Author,
    n: int,
)
    requires
        0 <= n,
    ensures
        0 <= author_total(features, labels, word, who, n) <= n * 0xFFFF_FFFF,
    decreases n,
{
    if n > 0 {
        lemma_author_total_bound(features, labels, word, who, n - 1);
    }
}

/// How well a word tells the authors apart: the distance between its total
/// count over Shelley's paragraphs and over Austen's.
pub fn calculate_information_gain(data: &Dataset, attribute: &str) -> (r: u128)
    requires
        data.features.len() <= data.labels.len(),
    ensures
        r == {
            let n = data.features.len() as int;
            let s = author_total(data.features@, data.labels@, attribute@, Author::Shelley, n);
            let a = author_total(data.features@, data.labels@, attribute@, Author::Austen, n);
            if s >= a {
                s - a
            } else {
                a - s
            }
        },
{
    let mut shelley: u128 = 0;
    let mut austen: u128 = 0;
    let mut i: usize = 0;
    while i < data.features.len()
        invariant
            data.features.len() <= data.labels.len(),
            i <= data.features.len(),
            shelley == author_total(data.features@, data.labels@, attribute@, Author::Shelley, i as int),
            austen == author_total(data.features@, data.labels@, attribute@, Author::Austen, i as int),
        decreases data.features.len() - i,
    {
        proof {
            lemma_author_total_bound(data.features@, data.labels@, attribute@, Author::Shelley, i as int);
            lemma_author_total_bound(data.features@, data.labels@, attribute@, Author::Austen, i as int);
            assert(i * 0xFFFF_FFFF <= 0xFFFF_FFFF_FFFF_FFFF * 0xFFFF_FFFF) by (nonlinear_arith)
                requires
                    i <= 0xFFFF_FFFF_FFFF_FFFF,
            ;
        }
        match lookup_count(&data.features[i], attribute) {
            Some(count) => {
                if data.labels[i] == Author::Austen {
                    austen = austen + count as u128;
                } else {
                    shelley = shelley + count as u128;
                }
            },
            None => {},
        }
        i = i + 1;
    }
    if shelley >= austen {
        shelley - austen
    } else {
        austen - shelley
    }
}

/// The gain of `word` over a dataset, as `calculate_information_gain` computes it.
pub open spec fn gain_of(features: Seq<HashMap<String, u32>>, labels: Seq<Author>, word: Seq<char>) -> int {
    let n = features.len() as int;
    let s = author_total(features, labels, word, Author::Shelley, n);
    let a = author_total(features, labels, word, Author::Austen, n);
    if s >= a {
        s - a
    } else {
        a - s
    }
}

/// The index of the last of the first `n` candidates whose gain is the
/// largest among them.
pub open spec fn last_best(data: Dataset, candidates: Seq<String>, n: int) -> int
    decreases n,
{
    if n <= 1 {
        0
    } else {
        let b = last_best(data, candidates, n - 1);
        if gain_of(data.features@, data.labels@, candidates[n - 1]@) >= gain_of(
            data.features@,
            data.labels@,
            candidates[b]@,
        ) {
            n - 1
        } else {
            b
        }
    }
}

proof fn lemma_last_best_range(data: Dataset, candidates: Seq<String>, n: int)
    requires
        1 <= n,
    ensures
        0 <= last_best(data, candidates, n) < n,
    decreases n,
{
    if n > 1 {
        lemma_last_best_range(data, candidates, n - 1);
    }
}

/// The candidate word that tells the authors apart best: the last one of
/// largest gain; the empty word when there is no candidate.
pub fn best_attribute(data: &Dataset, candidates: &Vec<String>) -> (r: String)
    requires
        data.features.len() <= data.labels.len(),
    ensures
        candidates@.len() == 0 ==> r@.len() == 0,
        candidates@.len() > 0 ==> r@ == candidates@[last_best(
            *data,
            candidates@,
            candidates@.len() as int,
        )]@,
{
    if candidates.len() == 0 {
        return String::new();
    }
    let mut best: usize = 0;
    let mut best_gain = calculate_information_gain(data, candidates[0].as_str());
    let mut i: usize = 1;
    while i < candidates.len()
        invariant
            data.features.len() <= data.labels.len(),
            1 <= i <= candidates@.len(),
            best == last_best(*data, candidates@, i as int),
            best < i,
            best_gain == gain_of(data.features@, data.labels@, candidates@[best as int]@),
        decreases candidates.len() - i,
    {
        let gain = calculate_information_gain(data, candidates[i].as_str());
        if gain >= best_gain {
            best = i;
            best_gain = gain;
        }
        i = i + 1;
    }
    candidates[best].clone()
}

/// Relies on HashMap::keys: the words of a word-count map, in the order the
/// map is walked, which each process seeds.
#[verifier::external_body]
fn words_of(counts: &HashMap<String, u32>) -> (r: Vec<String>) {
    counts.keys().cloned().collect()
}

/// The word of `attributes` that tells the authors apart best, as
/// `best_attribute` chooses it from the words in the order the map is walked.
pub fn choose_best_attribute(data: &Dataset, attributes: &HashMap<String, u32>) -> (r: String)
    requires
        data.features.len() <= data.labels.len(),
{
    let words = words_of(attributes);
    best_attribute(data, &words)
}

/// Where an inner node sends an example, given the example's count of the
/// node's word (`found`): to the child under that count if there is one, and
/// otherwise to the child under the fallback count `w`, which then grows by
/// one (the flag). `None` when neither child exists.
pub open spec fn branch(found: Option<u32>, children: Map<u32, DecisionTreeNode>, w: u32) -> Option<(u32, bool)> {
    if found is Some && children.contains_key(found.unwrap()) {
        Some((found.unwrap(), false))
    } else if children.contains_key(w) {
        Some((w, true))
    } else {
        None
    }
}

/// The author the tree gives to an example: a leaf gives its label; an inner
/// node follows `branch`, and gives Austen where there is no child to follow.
pub open spec fn predict(node: DecisionTreeNode, example: Map<String, u32>, w: u32) -> Author
    decreases node,
{
    match node {
        DecisionTreeNode::Internal { attribute, children } => {
            match branch(count_of(example, attribute@), children@, w) {
                Some((k, grows)) => {
                    if grows {
                        predict(children@[k], example, (w + 1) as u32)
                    } else {
                        predict(children@[k], example, w)
                    }
                },
                None => Author::Austen,
            }
        },
        DecisionTreeNode::Leaf { class_label } => class_label,
    }
}

/// The fallback count never passes `u32::MAX` on the path `predict` takes.
pub open spec fn predict_fits(node: DecisionTreeNode, example: Map<String, u32>, w: u32) -> bool
    decreases node,
{
    match node {
        DecisionTreeNode::Internal { attribute, children } => {
            match branch(count_of(example, attribute@), children@, w) {
                Some((k, grows)) => {
                    if grows {
                        w < u32::MAX && predict_fits(children@[k], example, (w + 1) as u32)
                    } else {
                        predict_fits(children@[k], example, w)
                    }
                },
                None => true,
            }
        },
        DecisionTreeNode::Leaf { class_label } => true,
    }
}

/// Where an inner node sends an example whose count of the node's word is
/// `found`, as `branch` states.
pub fn branch_key(found: Option<u32>, children: &HashMap<u32, DecisionTreeNode>, w: u32) -> (r:
    Option<(u32, bool)>)
    ensures
        r == branch(found, children@, w),
{
    match found {
        Some(value) => {
            if children.contains_key(&value) {
                return Some((value, false));
            }
        },
        None => {},
    }
    if children.contains_key(&w) {
        Some((w, true))
    } else {
        None
    }
}

/// The author the tree gives to an example, as `predict` states.
pub fn predict_tree(node: &DecisionTreeNode, example: &HashMap<String, u32>, word_occurances: u32) -> (r: Author)
    requires
        predict_fits(*node, example@, word_occurances),
    ensures
        r == predict(*node, example@, word_occurances),
    decreases node,
{
    match node {
        DecisionTreeNode::Internal { attribute, children } => {
            let found = lookup_count(example, attribute);
            match branch_key(found, children, word_occurances) {
                Some((k, grows)) => {
                    let child = children.get(&k).unwrap();
                    if grows {
                        predict_tree(child, example, word_occurances + 1)
                    } else {
                        predict_tree(child, example, word_occurances)
                    }
                },
                None => Author::Austen,
            }
        },
        DecisionTreeNode::Leaf { class_label } => *class_label,
    }
}

/// Whether the fallback count stays within `u32` on the path a prediction
/// takes, as `predict_fits` states.
pub fn prediction_fits(node: &DecisionTreeNode, example: &HashMap<String, u32>, word_occurances: u32) -> (r: bool)
    ensures
        r == predict_fits(*node, example@, word_occurances),
    decreases node,
{
    match node {
        DecisionTreeNode::Internal { attribute, children } => {
            let found = lookup_count(example, attribute);
            match branch_key(found, children, word_occurances) {
                Some((k, grows)) => {
                    let child = children.get(&k).unwrap();
                    if grows {
                        if word_occurances == u32::MAX {
                            false
                        } else {
                            prediction_fits(child, example, word_occurances + 1)
                        }
                    } else {
                        prediction_fits(child, example, word_occurances)
                    }
                },
                None => true,
            }
        },
        DecisionTreeNode::Leaf { class_label } => true,
    }
}

/// The author the tree gives to an example, or `None` where the fallback
/// count would pass `u32::MAX` on the way.
pub fn predict_checked(node: &DecisionTreeNode, example: &HashMap<String, u32>, word_occurances: u32) -> (r: Option<Author>)
    ensures
        r == (if predict_fits(*node, example@, word_occurances) {
            Some(predict(*node, example@, word_occurances))
        } else {
            None
        }),
{
    if prediction_fits(node, example, word_occurances) {
        Some(predict_tree(node, example, word_occurances))
    } else {
        None
    }
}

/// How many of the first `n` examples the tree labels right.
pub open spec fn correct_upto(
    tree: DecisionTreeNode,
    features: Seq<HashMap<String, u32>>,
    labels: Seq<Author>,
    n: int,
) -> nat
    decreases n,
{
    if n <= 0 {
        0
    } else {
        correct_upto(tree, features, labels, n - 1) + if predict(tree, features[n - 1]@, 1)
            == labels[n - 1] {
            1nat
        } else {
            0nat
        }
    }
}

/// How many examples of the validation data the tree labels right, each
/// prediction starting from the fallback count 1.
pub fn correct_predictions(tree: &DecisionTreeNode, validation_data: &Dataset) -> (r: usize)
    requires
        forall|i: int|
            0 <= i < validation_data.features@.len() ==> predict_fits(
                *tree,
                #[trigger] validation_data.features@[i]@,
                1,
            ),
    ensures
        r == correct_upto(
            *tree,
            validation_data.features@,
            validation_data.labels@,
            if validation_data.features@.len() <= validation_data.labels@.len() {
                validation_data.features@.len() as int
            } else {
                validation_data.labels@.len() as int
            },
        ),
{
    let n = if validation_data.features.len() <= validation_data.labels.len() {
        validation_data.features.len()
    } else {
        validation_data.labels.len()
    };
    let mut correct: usize = 0;
    let mut i: usize = 0;
    while i < n
        invariant
            n <= validation_data.features@.len(),
            n <= validation_data.labels@.len(),
            i <= n,
            correct <= i,
            correct == correct_upto(*tree, validation_data.features@, validation_data.labels@, i as int),
            forall|j: int|
                0 <= j < validation_data.features@.len() ==> predict_fits(
                    *tree,
                    #[trigger] validation_data.features@[j]@,
                    1,
                ),
        decreases n - i,
    {
        let predicted = predict_tree(tree, &validation_data.features[i], 1);
        if predicted == validation_data.labels[i] {
            correct = correct + 1;
        }
        i = i + 1;
    }
    correct
}

/// Every label is `a` (true of no labels at all).
pub open spec fn all_are(labels: Seq<Author>, a: Author) -> bool {
    forall|i: int| 0 <= i < labels.len() ==> labels[i] == a
}

/// The label a leaf built over `labels` gets when they agree: Austen when all
/// are Austen (so also for none), Shelley when all are Shelley, and `None`
/// when they are mixed.
pub fn uniform_label(labels: &Vec<Author>) -> (r: Option<Author>)
    ensures
        r == (if all_are(labels@, Author::Austen) {
            Some(Author::Austen)
        } else if all_are(labels@, Author::Shelley) {
            Some(Author::Shelley)
        } else {
            None
        }),
{
    let mut austen = true;
    let mut shelley = true;
    let mut i: usize = 0;
    while i < labels.len()
        invariant
            i <= labels@.len(),
            austen == all_are(labels@.subrange(0, i as int), Author::Austen),
            shelley == all_are(labels@.subrange(0, i as int), Author::Shelley),
        decreases labels.len() - i,
    {
        if labels[i] != Author::Austen {
            austen = false;
        }
        if labels[i] != Author::Shelley {
            shelley = false;
        }
        proof {
            let prev = labels@.subrange(0, i as int);
            let next = labels@.subrange(0, i + 1);
            assert(next =~= prev.push(labels@[i as int]));
            assert(next[i as int] == labels@[i as int]);
            assert forall|j: int| 0 <= j < i implies next[j] == prev[j] by {}
        }
        i = i + 1;
    }
    assert(labels@.subrange(0, labels@.len() as int) =~= labels@);
    if austen {
        Some(Author::Austen)
    } else if shelley {
        Some(Author::Shelley)
    } else {
        None
    }
}

} // verus!
