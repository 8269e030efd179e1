//! The label encoder: maps labels to integer codes `0, 1, 2, ...`, assigned
//! in the order in which distinct labels are first seen.

use vstd::prelude::*;
use crate::base::error::{Error, ErrorKind};
use crate::base::MLResult;
use crate::dataset::strings_view;
use crate::preprocessing::{FitStatus, Preprocessor, PreprocessorFitter};

verus! {

/// The distinct labels of `labels`, in the order of their first occurrence.
pub open spec fn distinct_in_order(labels: Seq<Seq<char>>) -> Seq<Seq<char>>
    decreases labels.len(),
{
    if labels.len() == 0 {
        Seq::empty()
    } else {
        let before = distinct_in_order(labels.drop_last());
        if before.contains(labels.last()) {
            before
        } else {
            before.push(labels.last())
        }
    }
}

/// `codes` gives each label of `labels` its position in `label_map`.
pub open spec fn encodes(label_map: Seq<Seq<char>>, labels: Seq<Seq<char>>, codes: Seq<usize>) -> bool {
    &&& codes.len() == labels.len()
    &&& forall|i: int| 0 <= i < labels.len() ==> {
            &&& (#[trigger] codes[i]) < label_map.len()
            &&& label_map[codes[i] as int] == labels[i]
        }
}

/// The label encoder fitter: the distinct labels it was fit on, in code order.
#[derive(Debug)]
pub struct LabelEncoderFitter {
    label_map: Vec<String>,
    fit: FitStatus,
}

impl LabelEncoderFitter {
    /// The distinct labels, in code order: a label's code is its position.
    pub closed spec fn spec_label_map(&self) -> Seq<Seq<char>> {
        strings_view(self.label_map@)
    }

    /// Whether the fitter has been fit.
    pub closed spec fn spec_fit_status(&self) -> FitStatus {
        self.fit
    }

    /// An unfitted fitter with no labels.
    pub fn new() -> (r: Self)
        ensures
            r.spec_fit_status() == FitStatus::NotFit,
            r.spec_label_map() == Seq::<Seq<char>>::empty(),
    {
        LabelEncoderFitter { label_map: Vec::new(), fit: FitStatus::NotFit }
    }

    /// The distinct labels, in code order: a label's code is its position.
    pub fn label_map(&self) -> (r: &Vec<String>)
        ensures
            strings_view(r@) == self.spec_label_map(),
    {
        &self.label_map
    }

    /// Whether the fitter has been fit.
    pub fn fit_status(&self) -> (r: &FitStatus)
        ensures
            *r == self.spec_fit_status(),
    {
        &self.fit
    }

    /// Fits on `input`: the first distinct label gets code 0, the next new one
    /// code 1, and so on. Never fails.
    pub fn fit(self, input: &Vec<String>) -> (r: MLResult<LabelEncoder>)
        ensures
            r matches Ok(enc) && {
                &&& enc.spec_fitter().spec_fit_status() == FitStatus::Fit
                &&& enc.spec_fitter().spec_label_map() == distinct_in_order(strings_view(input@))
            },
    {
        let ghost labels = strings_view(input@);
        let mut label_map: Vec<String> = Vec::new();
        let mut k: usize = 0;
        while k < input.len()
            invariant
                labels == strings_view(input@),
                k <= input@.len(),
                strings_view(label_map@) == distinct_in_order(labels.subrange(0, k as int)),
            decreases input@.len() - k,
        {
            proof {
                assert(labels.subrange(0, k + 1).drop_last() =~= labels.subrange(0, k as int));
            }
            if !position_of(&label_map, &input[k]).is_some() {
                label_map.push(input[k].clone());
                assert(strings_view(label_map@) =~= distinct_in_order(labels.subrange(0, k as int)).push(labels[k as int]));
            }
            k = k + 1;
        }
        assert(labels.subrange(0, k as int) =~= labels);
        Ok(LabelEncoder { fitter: LabelEncoderFitter { label_map, fit: FitStatus::Fit } })
    }
}

impl Default for LabelEncoderFitter {
    /// An unfitted fitter with no labels.
    fn default() -> (r: Self)
        ensures
            r.spec_fit_status() == FitStatus::NotFit,
            r.spec_label_map() == Seq::<Seq<char>>::empty(),
    {
        LabelEncoderFitter::new()
    }
}

/// The position of `label` in `labels`, if it is there.
pub(crate) fn position_of(labels: &Vec<String>, label: &String) -> (r: Option<usize>)
    ensures
        match r {
            Some(p) => p < labels@.len() && strings_view(labels@)[p as int] == label@,
            None => !strings_view(labels@).contains(label@),
        },
{
    let mut j: usize = 0;
    while j < labels.len()
        invariant
            j <= labels@.len(),
            forall|k: int| 0 <= k < j ==> strings_view(labels@)[k] != label@,
        decreases labels@.len() - j,
    {
        if labels[j] == *label {
            return Some(j);
        }
        j = j + 1;
    }
    proof {
        if strings_view(labels@).contains(label@) {
            let k = choose|k: int| 0 <= k < strings_view(labels@).len() && strings_view(labels@)[k] == label@;
            assert(strings_view(labels@)[k] != label@);
        }
    }
    None
}

/// The fitted label encoder.
#[derive(Debug)]
pub struct LabelEncoder {
    fitter: LabelEncoderFitter,
}

impl Clone for LabelEncoderFitter {
    /// Copies the fitter: the same labels and the same fit status.
    fn clone(&self) -> (r: Self)
        ensures
            r.spec_label_map() == self.spec_label_map(),
            r.spec_fit_status() == self.spec_fit_status(),
    {
        let r = LabelEncoderFitter { label_map: self.label_map.clone(), fit: self.fit };
        assert(r.spec_label_map() =~= self.spec_label_map());
        r
    }
}

impl Clone for LabelEncoder {
    /// Copies the encoder: the same labels.
    fn clone(&self) -> (r: Self)
        ensures
            r.spec_fitter().spec_label_map() == self.spec_fitter().spec_label_map(),
    {
        proof {
            use_type_invariant(self);
        }
        LabelEncoder { fitter: self.fitter.clone() }
    }
}

impl LabelEncoder {
    /// An encoder only comes from `fit`, so its fitter has been fit.
    #[verifier::type_invariant]
    spec fn is_fitted(&self) -> bool {
        self.fitter.fit == FitStatus::Fit
    }

    /// The fitter that holds the fitted labels.
    pub closed spec fn spec_fitter(&self) -> LabelEncoderFitter {
        self.fitter
    }

    /// The fitter that holds the fitted labels.
    pub fn fitter(&self) -> (r: &LabelEncoderFitter)
        ensures
            *r == self.spec_fitter(),
            r.spec_fit_status() == FitStatus::Fit,
    {
        proof {
            use_type_invariant(self);
        }
        &self.fitter
    }

    /// Replaces each label of `input` by its code. Fails with `InvalidState`
    /// where a label was not seen at fit time.
    pub fn transform(&mut self, input: &Vec<String>) -> (r: MLResult<Vec<usize>>)
        ensures
            *final(self) == *old(self),
            final(self).spec_fitter().spec_fit_status() == FitStatus::Fit,
            match r {
                Ok(codes) => encodes(old(self).spec_fitter().spec_label_map(), strings_view(input@), codes@),
                Err(e) => {
                    &&& e.spec_kind() == ErrorKind::InvalidState
                    &&& exists|i: int| 0 <= i < input@.len()
                        && !old(self).spec_fitter().spec_label_map().contains(#[trigger] strings_view(input@)[i])
                },
            },
            r is Ok <==> forall|i: int| 0 <= i < input@.len()
                ==> old(self).spec_fitter().spec_label_map().contains(#[trigger] strings_view(input@)[i]),
    {
        proof {
            use_type_invariant(&*self);
        }
        let ghost map = self.fitter.spec_label_map();
        let mut codes: Vec<usize> = Vec::new();
        let mut k: usize = 0;
        while k < input.len()
            invariant
                map == self.fitter.spec_label_map(),
                *self == *old(self),
                self.fitter.fit == FitStatus::Fit,
                k <= input@.len(),
                encodes(map, strings_view(input@).subrange(0, k as int), codes@),
                forall|i: int| 0 <= i < k ==> map.contains(#[trigger] strings_view(input@)[i]),
            decreases input@.len() - k,
        {
            match position_of(&self.fitter.label_map, &input[k]) {
                Some(p) => {
                    codes.push(p);
                    proof {
                        assert(map.contains(strings_view(input@)[k as int]));
                    }
                },
                None => {
                    assert(!map.contains(strings_view(input@)[k as int]));
                    return Err(Error::new(ErrorKind::InvalidState, "label not found in encoder"));
                },
            }
            k = k + 1;
        }
        assert(strings_view(input@).subrange(0, k as int) =~= strings_view(input@));
        Ok(codes)
    }
}

impl PreprocessorFitter<Vec<String>, LabelEncoder> for LabelEncoderFitter {
    fn fit(self, inputs: &Vec<String>) -> MLResult<LabelEncoder> {
        LabelEncoderFitter::fit(self, inputs)
    }

    fn fit_status(&self) -> &FitStatus {
        LabelEncoderFitter::fit_status(self)
    }
}

impl Preprocessor<Vec<String>> for LabelEncoder {
    type O = Vec<usize>;

    fn transform(&mut self, inputs: &Vec<String>) -> MLResult<Vec<usize>> {
        LabelEncoder::transform(self, inputs)
    }
}

/// The distinct labels list each label of `labels` exactly once, and nothing
/// else: `distinct_in_order(labels)` has no duplicates and holds exactly the
/// labels that occur in `labels`.
pub proof fn lemma_distinct_in_order(labels: Seq<Seq<char>>)
    ensures
        distinct_in_order(labels).no_duplicates(),
        forall|l: Seq<char>| #[trigger] distinct_in_order(labels).contains(l) <==> labels.contains(l),
    decreases labels.len(),
{
    if labels.len() > 0 {
        let init = labels.drop_last();
        lemma_distinct_in_order(init);
        assert forall|l: Seq<char>| #[trigger] distinct_in_order(labels).contains(l) <==> labels.contains(l) by {
            if labels.contains(l) {
                let k = choose|k: int| 0 <= k < labels.len() && labels[k] == l;
                if k < labels.len() - 1 {
                    assert(init[k] == l);
                }
            }
            if init.contains(l) {
                let k = choose|k: int| 0 <= k < init.len() && init[k] == l;
                assert(labels[k] == l);
            }
            if distinct_in_order(labels).contains(l) && !distinct_in_order(init).contains(l) {
                let d = distinct_in_order(labels);
                let k = choose|k: int| 0 <= k < d.len() && d[k] == l;
                assert(l == labels.last());
                assert(labels[labels.len() - 1] == l);
            }
            if distinct_in_order(init).contains(l) {
                let d0 = distinct_in_order(init);
                let k = choose|k: int| 0 <= k < d0.len() && d0[k] == l;
                if !d0.contains(labels.last()) {
                    assert(d0.push(labels.last())[k] == l);
                }
            }
            if l == labels.last() && !distinct_in_order(init).contains(l) {
                let d0 = distinct_in_order(init);
                assert(d0.push(l)[d0.len() as int] == l);
            }
        }
    }
}

/// Codes follow first-seen order: for every prefix of `labels`, the distinct
/// labels of that prefix are the first entries of the label map.
pub proof fn lemma_codes_first_seen(labels: Seq<Seq<char>>, k: int)
    requires
        0 <= k <= labels.len(),
    ensures
        distinct_in_order(labels.subrange(0, k)).is_prefix_of(distinct_in_order(labels)),
    decreases labels.len() - k,
{
    if k < labels.len() {
        lemma_codes_first_seen(labels, k + 1);
        let a = labels.subrange(0, k);
        let b = labels.subrange(0, k + 1);
        assert(b.drop_last() =~= a);
        let da = distinct_in_order(a);
        let db = distinct_in_order(b);
        let d = distinct_in_order(labels);
        assert forall|i: int| 0 <= i < da.len() implies da[i] == d[i] by {
            if !da.contains(b.last()) {
                assert(db[i] == da[i]);
            }
        }
    } else {
        assert(labels.subrange(0, k) =~= labels);
    }
}

/// Fitting twice on the same labels gives identical label maps, and both
/// encoders give the same codes for any input.
pub proof fn lemma_fit_deterministic(
    labels: Seq<Seq<char>>,
    a: LabelEncoder,
    b: LabelEncoder,
    input: Seq<Seq<char>>,
    codes_a: Seq<usize>,
    codes_b: Seq<usize>,
)
    requires
        a.spec_fitter().spec_label_map() == distinct_in_order(labels),
        b.spec_fitter().spec_label_map() == distinct_in_order(labels),
        encodes(a.spec_fitter().spec_label_map(), input, codes_a),
        encodes(b.spec_fitter().spec_label_map(), input, codes_b),
    ensures
        a.spec_fitter().spec_label_map() == b.spec_fitter().spec_label_map(),
        codes_a == codes_b,
{
    let d = distinct_in_order(labels);
    lemma_distinct_in_order(labels);
    assert forall|i: int| 0 <= i < input.len() implies codes_a[i] == codes_b[i] by {
        assert(d[codes_a[i] as int] == input[i]);
        assert(d[codes_b[i] as int] == input[i]);
    }
    assert(codes_a =~= codes_b);
}

/// A label's code is the number of distinct labels seen before its first
/// occurrence: where `f` is the first position of `labels[f]`, the label map
/// holds that label at position `labels.subrange(0, f).to_set().len()`.
pub proof fn lemma_code_counts_earlier(labels: Seq<Seq<char>>, f: int)
    requires
        0 <= f < labels.len(),
        forall|j: int| 0 <= j < f ==> labels[j] != labels[f],
    ensures
        labels.subrange(0, f).to_set().len() < distinct_in_order(labels).len(),
        distinct_in_order(labels)[labels.subrange(0, f).to_set().len() as int] == labels[f],
{
    let a = labels.subrange(0, f);
    let b = labels.subrange(0, f + 1);
    assert(b.drop_last() =~= a);
    assert(b.last() == labels[f]);
    lemma_distinct_in_order(a);
    if a.contains(labels[f]) {
        let j = choose|j: int| 0 <= j < a.len() && a[j] == labels[f];
        assert(labels[j] == labels[f]);
    }
    assert(!distinct_in_order(a).contains(labels[f]));
    lemma_codes_first_seen(labels, f + 1);
    let da = distinct_in_order(a);
    assert(distinct_in_order(b) == da.push(labels[f]));
    assert(distinct_in_order(b)[da.len() as int] == labels[f]);
    da.unique_seq_to_set();
    assert(da.to_set() =~= a.to_set()) by {
        assert forall|x: Seq<char>| da.to_set().contains(x) <==> a.to_set().contains(x) by {
            assert(da.contains(x) <==> a.contains(x));
        }
    }
}

} // verus!
