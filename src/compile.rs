use vstd::prelude::*;

use crate::declare::{declared_flags, parse_flag_attr, DeclError};
use crate::field::{field_views, FieldDecl, FieldView};
use crate::registry::{actions_below, build_registry, compiled_from, Registry};

verus! {

/// A field as written: its name and the argument list of its flag
/// declaration (empty when it declares no flags explicitly).
pub struct FieldSource {
    pub name: String,
    pub annotation: String,
}

/// Reading the declarations of all fields in order: their views, or the
/// first declaration error.
pub open spec fn declared_fields(fs: Seq<(Seq<char>, Seq<char>)>) -> Result<Seq<FieldView>, DeclError>
    decreases fs.len(),
{
    if fs.len() == 0 {
        Ok(seq![])
    } else {
        match declared_fields(fs.drop_last()) {
            Ok(dv) => match declared_flags(fs.last().1) {
                Ok(flags) => Ok(dv.push((fs.last().0, flags))),
                Err(e) => Err(e),
            },
            Err(e) => Err(e),
        }
    }
}

/// The names and annotations of a sequence of fields.
pub open spec fn source_views(fs: Seq<FieldSource>) -> Seq<(Seq<char>, Seq<char>)> {
    Seq::new(fs.len(), |i: int| (fs[i].name@, fs[i].annotation@))
}

/// Compiles the flag declarations of a settings definition into its
/// registry: each field's declaration list is read, the first declaration
/// error aborts, and otherwise every field's resolved flags are registered
/// with the field's position as action.
pub fn options(fields: &Vec<FieldSource>) -> (r: Result<Registry, DeclError>)
    requires
        forall|i: int| 0 <= i < fields@.len() ==> (#[trigger] fields@[i]).name@.len() > 0,
    ensures
        match declared_fields(source_views(fields@)) {
            Ok(dv) => {
                &&& r is Ok
                &&& r->Ok_0.wf()
                &&& compiled_from(r->Ok_0@, dv)
                &&& actions_below(r->Ok_0@, fields@.len())
            },
            Err(e) => r == Err::<Registry, DeclError>(e),
        },
{
    let ghost sv = source_views(fields@);
    let mut decls: Vec<FieldDecl> = Vec::new();
    let mut i: usize = 0;
    assert(sv.take(0) =~= Seq::<(Seq<char>, Seq<char>)>::empty());
    assert(field_views(decls@) =~= Seq::<FieldView>::empty());
    while i < fields.len()
        invariant
            i <= fields@.len(),
            decls@.len() == i,
            sv == source_views(fields@),
            forall|i: int| 0 <= i < fields@.len() ==> (#[trigger] fields@[i]).name@.len() > 0,
            forall|j: int| 0 <= j < decls@.len() ==> (#[trigger] decls@[j]).well_formed(),
            declared_fields(sv.take(i as int)) == Ok::<Seq<FieldView>, DeclError>(
                field_views(decls@),
            ),
        decreases fields@.len() - i,
    {
        assert(sv.take(i + 1 as int).drop_last() =~= sv.take(i as int));
        assert(sv.take(i + 1 as int).last() == (fields@[i as int].name@, fields@[i as int].annotation@));
        let flags = parse_flag_attr(fields[i].annotation.as_str());
        match flags {
            Ok(flags) => {
                let ghost before = field_views(decls@);
                let d = FieldDecl { name: fields[i].name.clone(), flags };
                decls.push(d);
                assert(field_views(decls@) =~= before.push(d@));
            },
            Err(e) => {
                proof {
                    lemma_declared_stops(sv, i + 1);
                }
                return Err(e);
            },
        }
        i += 1;
    }
    assert(sv.take(i as int) =~= sv);
    Ok(build_registry(&decls))
}

proof fn lemma_declared_stops(fs: Seq<(Seq<char>, Seq<char>)>, n: int)
    requires
        0 <= n <= fs.len(),
        declared_fields(fs.take(n)) is Err,
    ensures
        declared_fields(fs) == declared_fields(fs.take(n)),
    decreases fs.len() - n,
{
    if n < fs.len() {
        assert(fs.take(n + 1).drop_last() =~= fs.take(n));
        lemma_declared_stops(fs, n + 1);
    } else {
        assert(fs.take(n) =~= fs);
    }
}

} // verus!
