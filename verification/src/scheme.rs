//! Encoding-scheme forms and the structural validator.
//!
//! A scheme is an ordered list of forms. [`validate`] decides whether such a
//! list is a legal, unambiguous scheme; it reports the first violated rule in
//! a fixed priority order, which [`validate_spec`] captures exactly.

use vstd::prelude::*;

verus! {

/// One form of an encoding scheme: a possible bit-width/prefix combination
/// for a label segment.
#[derive(Clone, Copy, Debug, PartialEq, Eq, Structural)]
pub struct EncodingSchemeForm {
    /// Number of label bits the segment's directory part uses; 1 to 31.
    pub bit_count: u8,
    /// Width of the discriminating prefix in bits; 0 to 31, where 0 is only
    /// legal for the sole form of a single-form scheme.
    pub prefix_len: u8,
    /// The discriminating prefix itself, up to 31 bits wide.
    pub prefix: u32,
}

/// The closed set of reasons a form list or a wire buffer is rejected.
#[derive(Clone, Copy, Debug, PartialEq, Eq, Structural)]
pub enum EncodingSchemeError {
    /// The scheme has no forms at all.
    NoEncodingForms,
    /// The scheme has more than 31 forms.
    TooManyEncodingForms,
    /// A single-form scheme carries a non-empty prefix.
    SingleFormWithPrefix,
    /// A form's `bit_count` lies outside 1 to 31.
    BadBitCount,
    /// In a multi-form scheme a `prefix_len` lies outside 1 to 31.
    MultiFormBadPrefix,
    /// The `bit_count` values of a multi-form scheme decrease somewhere.
    BitCountNotSorted,
    /// Two forms of a multi-form scheme share one `prefix` value.
    DuplicatePrefix,
    /// A form's `bit_count + prefix_len` exceeds 59.
    TooBigForm,
    /// A wire buffer is too short to hold any encoding scheme.
    BadSerializedData,
    /// A form handed to the serializer has a field out of range.
    BadEncodingForm,
}

/// How many bits of label space a representation of `form` occupies.
pub fn form_size(form: &EncodingSchemeForm) -> (size: u8)
    requires
        form.bit_count + form.prefix_len <= u8::MAX,
    ensures
        size == form.bit_count + form.prefix_len,
{
    form.bit_count + form.prefix_len
}

/// The rule broken by form `i` of a multi-form scheme, if any, in the order
/// the validator applies its checks; `None` when the form passes them all.
pub open spec fn form_error_at(forms: Seq<EncodingSchemeForm>, i: int) -> Option<
    EncodingSchemeError,
> {
    let f = forms[i];
    if f.prefix_len == 0 || f.prefix_len > 31 {
        Some(EncodingSchemeError::MultiFormBadPrefix)
    } else if f.bit_count == 0 || f.bit_count > 31 {
        Some(EncodingSchemeError::BadBitCount)
    } else if i > 0 && forms[i - 1].bit_count > f.bit_count {
        Some(EncodingSchemeError::BitCountNotSorted)
    } else if f.bit_count + f.prefix_len > 59 {
        Some(EncodingSchemeError::TooBigForm)
    } else if exists|j: int| 0 <= j < i && (#[trigger] forms[j]).prefix == f.prefix {
        Some(EncodingSchemeError::DuplicatePrefix)
    } else {
        None
    }
}

/// Scans a multi-form scheme from form `i` on and returns the first error.
pub open spec fn multi_check(forms: Seq<EncodingSchemeForm>, i: int) -> Result<
    (),
    EncodingSchemeError,
>
    decreases forms.len() - i,
{
    if i < 0 || i >= forms.len() {
        Ok(())
    } else {
        match form_error_at(forms, i) {
            Some(e) => Err(e),
            None => multi_check(forms, i + 1),
        }
    }
}

/// What [`validate`] returns, check by check and in priority order.
pub open spec fn validate_spec(forms: Seq<EncodingSchemeForm>) -> Result<
    (),
    EncodingSchemeError,
> {
    if forms.len() == 0 {
        Err(EncodingSchemeError::NoEncodingForms)
    } else if forms.len() > 31 {
        Err(EncodingSchemeError::TooManyEncodingForms)
    } else if forms.len() == 1 {
        if forms[0].prefix_len != 0 || forms[0].prefix != 0 {
            Err(EncodingSchemeError::SingleFormWithPrefix)
        } else if forms[0].bit_count == 0 || forms[0].bit_count > 31 {
            Err(EncodingSchemeError::BadBitCount)
        } else {
            Ok(())
        }
    } else {
        multi_check(forms, 0)
    }
}

/// Form `i` of a multi-form scheme satisfies every structural rule: ranges,
/// size, ordering against its predecessor, and a prefix unseen so far.
pub open spec fn multi_form_ok_at(forms: Seq<EncodingSchemeForm>, i: int) -> bool {
    let f = forms[i];
    &&& 1 <= f.prefix_len <= 31
    &&& 1 <= f.bit_count <= 31
    &&& (i > 0 ==> forms[i - 1].bit_count <= f.bit_count)
    &&& f.bit_count + f.prefix_len <= 59
    &&& forall|j: int| 0 <= j < i ==> (#[trigger] forms[j]).prefix != f.prefix
}

/// A legal, unambiguous scheme: the quantified restatement of the rules the
/// validator checks one form at a time.
pub open spec fn is_valid_scheme(forms: Seq<EncodingSchemeForm>) -> bool {
    &&& 1 <= forms.len() <= 31
    &&& (forms.len() == 1 ==> forms[0].prefix_len == 0 && forms[0].prefix == 0 && 1 <= forms[0].bit_count <= 31)
    &&& (forms.len() >= 2 ==> forall|i: int| 0 <= i < forms.len() ==> multi_form_ok_at(forms, i))
}

proof fn lemma_multi_check_ok(forms: Seq<EncodingSchemeForm>, i: int)
    requires
        0 <= i <= forms.len(),
    ensures
        multi_check(forms, i) is Ok <==> forall|k: int|
            i <= k < forms.len() ==> form_error_at(forms, k) is None,
    decreases forms.len() - i,
{
    if i < forms.len() {
        lemma_multi_check_ok(forms, i + 1);
    }
}

/// The validator accepts a form list exactly when it is a valid scheme.
///
/// [`validate_spec`] mirrors the scan order of the checks so that the exact
/// error is pinned down; this lemma ties its success to the direct, quantified
/// description [`is_valid_scheme`].
pub proof fn lemma_validate_ok_iff_valid(forms: Seq<EncodingSchemeForm>)
    ensures
        validate_spec(forms) is Ok <==> is_valid_scheme(forms),
{
    if forms.len() >= 2 && forms.len() <= 31 {
        lemma_multi_check_ok(forms, 0);
        if multi_check(forms, 0) is Ok {
            assert forall|i: int| 0 <= i < forms.len() implies multi_form_ok_at(forms, i) by {
                assert(form_error_at(forms, i) is None);
            }
        } else if forall|i: int| 0 <= i < forms.len() ==> multi_form_ok_at(forms, i) {
            assert forall|k: int| 0 <= k < forms.len() implies form_error_at(
                forms,
                k,
            ) is None by {
                assert(multi_form_ok_at(forms, k));
            }
        }
    }
}

/// Checks that a form list is a legal, unambiguous encoding scheme.
///
/// Returns the first violated rule in the fixed priority order of
/// [`validate_spec`]; a scheme must pass here before it is advertised, and
/// decoded wire data must be re-validated before it is trusted.
#[verifier::loop_isolation(false)]
pub fn validate(forms: &Vec<EncodingSchemeForm>) -> (res: Result<(), EncodingSchemeError>)
    ensures
        res == validate_spec(forms@),
        res is Ok <==> is_valid_scheme(forms@),
{
    proof {
        lemma_validate_ok_iff_valid(forms@);
    }
    if forms.len() == 0 {
        return Err(EncodingSchemeError::NoEncodingForms);
    }
    if forms.len() > 31 {
        // each form must have a different prefix; a prefix is at most 31 bits
        // wide and a zero-width prefix is only legal alone, so at most 31
        // forms can ever be told apart
        return Err(EncodingSchemeError::TooManyEncodingForms);
    }
    if forms.len() == 1 {
        let form = forms[0];
        if form.prefix_len != 0 || form.prefix != 0 {
            return Err(EncodingSchemeError::SingleFormWithPrefix);
        }
        if form.bit_count == 0 || form.bit_count > 31 {
            return Err(EncodingSchemeError::BadBitCount);
        }
        return Ok(());
    }
    let mut last_bit_count: u8 = 0;
    let mut used_prefixes: Vec<u32> = Vec::new();
    let mut i: usize = 0;
    while i < forms.len()
        invariant
            0 <= i <= forms.len(),
            2 <= forms.len() <= 31,
            multi_check(forms@, 0) == multi_check(forms@, i as int),
            forall|j: int| 0 <= j < i ==> form_error_at(forms@, j) is None,
            used_prefixes@.len() == i,
            forall|j: int| 0 <= j < i ==> used_prefixes@[j] == (#[trigger] forms@[j]).prefix,
            i > 0 ==> last_bit_count == forms@[i - 1].bit_count,
            i == 0 ==> last_bit_count == 0,
        decreases forms.len() - i,
    {
        let form = forms[i];
        // when there are multiple forms, prefixes must be non-empty
        if form.prefix_len == 0 || form.prefix_len > 31 {
            return Err(EncodingSchemeError::MultiFormBadPrefix);
        }
        if form.bit_count == 0 || form.bit_count > 31 {
            return Err(EncodingSchemeError::BadBitCount);
        }
        // forms must have bit_count in ascending order
        if last_bit_count > form.bit_count {
            return Err(EncodingSchemeError::BitCountNotSorted);
        }
        last_bit_count = form.bit_count;
        if form_size(&form) > 59 {
            return Err(EncodingSchemeError::TooBigForm);
        }
        // forms must be distinguishable by their prefix
        let mut seen = false;
        let mut j: usize = 0;
        while j < used_prefixes.len()
            invariant
                0 <= j <= used_prefixes.len(),
                seen <==> exists|t: int| 0 <= t < j && used_prefixes@[t] == form.prefix,
            decreases used_prefixes.len() - j,
        {
            if used_prefixes[j] == form.prefix {
                seen = true;
            }
            j = j + 1;
        }
        if seen {
            proof {
                let t = choose|t: int| 0 <= t < i && used_prefixes@[t] == form.prefix;
                assert((forms@[t]).prefix == form.prefix);
            }
            return Err(EncodingSchemeError::DuplicatePrefix);
        }
        used_prefixes.push(form.prefix);
        i = i + 1;
    }
    Ok(())
}

} // verus!
