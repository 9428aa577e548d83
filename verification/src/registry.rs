//! The preload registry: which split points are preloaded on which route patterns.

use vstd::prelude::*;
use vstd::std_specs::iter::IteratorSpec;

verus! {

/// One preload registration: the split point named `source_name`, whose manifest key starts
/// with `split_prefix`, preloaded on `preload_path` (or on every route when that is `None`).
#[derive(Debug, Clone, PartialEq, Eq)]
pub struct PreloadRegistration {
    pub source_name: String,
    pub preload_path: Option<String>,
    pub split_prefix: String,
}

/// The mathematical model of a [`PreloadRegistration`].
pub struct RegistrationView {
    pub source_name: Seq<char>,
    pub preload_path: Option<Seq<char>>,
    pub split_prefix: Seq<char>,
}

impl View for PreloadRegistration {
    type V = RegistrationView;

    open spec fn view(&self) -> RegistrationView {
        RegistrationView {
            source_name: self.source_name@,
            preload_path: match self.preload_path {
                Some(p) => Some(p@),
                None => None,
            },
            split_prefix: self.split_prefix@,
        }
    }
}

/// All registrations of an application, in registration order.
#[derive(Debug, Clone, Default, PartialEq, Eq)]
pub struct PreloadRegistry {
    entries: Vec<PreloadRegistration>,
}

/// The views of a sequence of registrations.
pub open spec fn registrations_view(v: Seq<PreloadRegistration>) -> Seq<RegistrationView> {
    v.map_values(|r: PreloadRegistration| r@)
}

impl View for PreloadRegistry {
    type V = Seq<RegistrationView>;

    closed spec fn view(&self) -> Seq<RegistrationView> {
        registrations_view(self.entries@)
    }
}

impl PreloadRegistry {
    /// A registry holding `entries`, in order.
    pub fn new(entries: Vec<PreloadRegistration>) -> (r: Self)
        ensures
            r@ == registrations_view(entries@),
    {
        PreloadRegistry { entries }
    }

    /// The registrations, in order.
    pub fn iter(&self) -> (r: std::slice::Iter<'_, PreloadRegistration>)
        ensures
            r.remaining().len() == self@.len(),
            forall|i: int| 0 <= i < self@.len() ==> (#[trigger] r.remaining()[i])@ == self@[i],
    {
        let sl = self.entries.as_slice();
        let it = sl.iter();
        proof {
            broadcast use vstd::std_specs::slice::axiom_spec_slice_iter;
        }
        it
    }

    /// The registrations, in order.
    pub(crate) fn registrations(&self) -> (r: &Vec<PreloadRegistration>)
        ensures
            registrations_view(r@) == self@,
    {
        &self.entries
    }
}

/// A preload as a registration attribute submits it, with names fixed at compile time.
#[derive(Debug, Clone, Copy, PartialEq, Eq)]
pub struct RegisteredPreload {
    pub source_name: &'static str,
    pub preload_path: Option<&'static str>,
    pub split_prefix: &'static str,
}

impl View for RegisteredPreload {
    type V = RegistrationView;

    open spec fn view(&self) -> RegistrationView {
        RegistrationView {
            source_name: self.source_name@,
            preload_path: match self.preload_path {
                Some(p) => Some(p@),
                None => None,
            },
            split_prefix: self.split_prefix@,
        }
    }
}

impl RegisteredPreload {
    /// The registration this submission stands for.
    pub fn to_registration(&self) -> (r: PreloadRegistration)
        ensures
            r@ == self@,
    {
        PreloadRegistration {
            source_name: self.source_name.to_owned(),
            preload_path: match self.preload_path {
                Some(p) => Some(p.to_owned()),
                None => None,
            },
            split_prefix: self.split_prefix.to_owned(),
        }
    }
}

impl PreloadRegistry {
    /// The registry of the submitted preloads, in submission order.
    pub fn from_submitted(submitted: &Vec<RegisteredPreload>) -> (r: Self)
        ensures
            r@ == submitted@.map_values(|e: RegisteredPreload| e@),
    {
        let mut entries: Vec<PreloadRegistration> = Vec::new();
        let mut i: usize = 0;
        while i < submitted.len()
            invariant
                i <= submitted.len(),
                registrations_view(entries@) == submitted@.take(i as int).map_values(|e: RegisteredPreload| e@),
            decreases submitted.len() - i,
        {
            let ghost before = entries@;
            entries.push(submitted[i].to_registration());
            assert(registrations_view(entries@) =~= registrations_view(before).push(submitted@[i as int]@));
            assert(submitted@.take(i + 1).map_values(|e: RegisteredPreload| e@)
                =~= submitted@.take(i as int).map_values(|e: RegisteredPreload| e@).push(submitted@[i as int]@));
            i += 1;
        }
        assert(submitted@.take(submitted.len() as int) =~= submitted@);
        PreloadRegistry::new(entries)
    }
}

} // verus!
