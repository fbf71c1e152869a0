//! Text that can be handed to a C interface.

use crate::text::Text;
use c8str::C8String;
use vstd::prelude::*;

verus! {

broadcast use vstd::string::group_string_axioms;

/// Whether a text is free of the character NUL.
pub open spec fn nul_free(text: Text) -> bool {
    !text.contains('\0')
}

/// `C8String::from_string`, and `C8String::into_string` on what it accepts: a string is accepted
/// exactly when it holds no NUL, and comes back as it is.
#[verifier::external_body]
fn accept_c8(text: String) -> (accepted: Option<String>)
    ensures
        match accepted {
            Some(kept) => nul_free(text@) && kept@ == text@,
            None => !nul_free(text@),
        },
{
    C8String::from_string(text).ok().map(C8String::into_string)
}

/// Text without NUL.
#[derive(Debug, PartialEq, Eq)]
pub struct C8Text {
    text: String,
}

impl View for C8Text {
    type V = Text;

    closed spec fn view(&self) -> Text {
        self.text@
    }
}

impl DeepView for C8Text {
    type V = Text;

    open spec fn deep_view(&self) -> Text {
        self@
    }
}

impl Clone for C8Text {
    fn clone(&self) -> (copy: C8Text)
        ensures
            copy@ == self@,
    {
        proof {
            use_type_invariant(self);
        }
        C8Text { text: self.text.clone() }
    }
}

impl C8Text {
    #[verifier::type_invariant]
    closed spec fn well_formed(&self) -> bool {
        nul_free(self.text@)
    }

    /// Accepts `text` when it holds no NUL.
    pub fn from_string(text: String) -> (accepted: Option<C8Text>)
        ensures
            match accepted {
                Some(kept) => nul_free(text@) && kept@ == text@,
                None => !nul_free(text@),
            },
    {
        match accept_c8(text) {
            Some(text) => Some(C8Text { text }),
            None => None,
        }
    }

    /// Wraps text that is known to hold no NUL.
    pub fn of(text: &str) -> (wrapped: C8Text)
        requires
            nul_free(text@),
        ensures
            wrapped@ == text@,
    {
        match C8Text::from_string(text.to_owned()) {
            Some(wrapped) => wrapped,
            None => {
                assert(false);
                C8Text::empty()
            },
        }
    }

    /// The empty text.
    pub fn empty() -> (text: C8Text)
        ensures
            text@ == Seq::<char>::empty(),
    {
        let text = C8Text { text: String::new() };
        assert(text@ =~= Seq::<char>::empty());
        text
    }

    /// The text as a string slice.
    pub fn as_str(&self) -> (text: &str)
        ensures
            text@ == self@,
            nul_free(text@),
    {
        proof {
            use_type_invariant(self);
        }
        self.text.as_str()
    }
}

/// The text without its NULs.
pub open spec fn without_nul(text: Text) -> Text {
    text.filter(|c: char| c != '\0')
}

/// The text without its NULs.
pub fn strip_nul(text: &str) -> (stripped: String)
    ensures
        stripped@ == without_nul(text@),
        nul_free(stripped@),
{
    let chars = crate::text::chars_of(text);
    let ghost keep = |c: char| c != '\0';
    let mut stripped = String::new();
    let mut i: usize = 0;
    proof {
        reveal(Seq::filter);
        assert(stripped@ =~= chars@.take(0).filter(keep));
    }
    while i < chars.len()
        invariant
            i <= chars.len(),
            keep == (|c: char| c != '\0'),
            stripped@ == chars@.take(i as int).filter(keep),
        decreases chars.len() - i,
    {
        proof {
            crate::seqs::lemma_filter_step(chars@, keep, i as int);
        }
        if chars[i] != '\0' {
            stripped.push(chars[i]);
        }
        i = i + 1;
    }
    proof {
        crate::seqs::lemma_take_all(chars@);
        crate::seqs::lemma_filter_contains(chars@, keep);
    }
    stripped
}

/// Text without NUL stays so when text without NUL is added.
pub proof fn lemma_nul_free_add(left: Text, right: Text)
    ensures
        nul_free(left + right) <==> nul_free(left) && nul_free(right),
{
    crate::seqs::lemma_add_contains(left, right, '\0');
}

/// Decimal renderings hold no NUL.
pub proof fn lemma_decimal_nul_free(value: nat)
    ensures
        nul_free(crate::text::decimal(value)),
    decreases value,
{
    let digits = crate::text::decimal(value);
    if value >= 10 {
        lemma_decimal_nul_free(value / 10);
        crate::seqs::lemma_push_contains(
            crate::text::decimal(value / 10),
            crate::text::digit_char(value % 10),
            '\0',
        );
    } else if digits.contains('\0') {
        assert(digits[0] == crate::text::digit_char(value));
    }
}

} // verus!
