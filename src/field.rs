use vstd::prelude::*;

use crate::flag::{Flag, FlagId};

verus! {

/// The identities of a sequence of flags, in order.
pub open spec fn ids(v: Seq<Flag>) -> Seq<FlagId> {
    Seq::new(v.len(), |k: int| v[k]@)
}

/// One field of a settings definition: its name and the flags declared on
/// it explicitly (possibly none).
pub struct FieldDecl {
    pub name: String,
    pub flags: Vec<Flag>,
}

/// The abstract value of a field: its name and explicit flags.
pub type FieldView = (Seq<char>, Seq<FlagId>);

impl View for FieldDecl {
    type V = FieldView;

    open spec fn view(&self) -> FieldView {
        (self.name@, ids(self.flags@))
    }
}

impl FieldDecl {
    /// A field name is never empty.
    pub open spec fn well_formed(&self) -> bool {
        self.name@.len() > 0
    }
}

/// The views of a sequence of fields.
pub open spec fn field_views(ds: Seq<FieldDecl>) -> Seq<FieldView> {
    Seq::new(ds.len(), |i: int| ds[i]@)
}

/// The flags inferred from a field name: its first character as a short
/// flag and, for names longer than one character, the whole name as a long
/// flag.
pub open spec fn inferred_flags(name: Seq<char>) -> Seq<FlagId> {
    if name.len() == 1 {
        seq![FlagId::Short(name[0])]
    } else {
        seq![FlagId::Short(name[0]), FlagId::Long(name)]
    }
}

/// The flags a field answers to: the explicit ones when there are any,
/// otherwise those inferred from its name.
pub open spec fn resolved_flags(d: FieldView) -> Seq<FlagId> {
    if d.1.len() == 0 {
        inferred_flags(d.0)
    } else {
        d.1
    }
}

/// Computes the flags a field answers to.
pub fn resolve_flags(d: &FieldDecl) -> (r: Vec<Flag>)
    requires
        d.well_formed(),
    ensures
        ids(r@) == resolved_flags(d@),
        d.flags@.len() == 0 && d.name@.len() > 1 ==> ids(r@) == seq![
            FlagId::Short(d.name@[0]),
            FlagId::Long(d.name@),
        ],
        d.flags@.len() == 0 && d.name@.len() == 1 ==> ids(r@) == seq![FlagId::Short(d.name@[0])],
        d.flags@.len() > 0 ==> ids(r@) == ids(d.flags@),
{
    let mut r: Vec<Flag> = Vec::new();
    if d.flags.len() == 0 {
        let first = d.name.as_str().get_char(0);
        r.push(Flag::Short(first));
        if d.name.as_str().unicode_len() > 1 {
            r.push(Flag::Long(d.name.clone()));
        }
        assert(ids(r@) =~= inferred_flags(d.name@));
    } else {
        let mut k: usize = 0;
        while k < d.flags.len()
            invariant
                k <= d.flags@.len(),
                r@.len() == k,
                forall|j: int| 0 <= j < k ==> #[trigger] r@[j]@ == d.flags@[j]@,
            decreases d.flags@.len() - k,
        {
            let f = d.flags[k].duplicate();
            r.push(f);
            k += 1;
        }
        assert(ids(r@) =~= ids(d.flags@));
    }
    r
}

} // verus!
