//! Dependencies, schemas and relations written out as text.

use vstd::prelude::*;
use vstd::string::*;
use crate::attrs::Attr;
use crate::dependency::{FdSpec, FunctionalDependency};
use crate::relation::{Relation, RelationSpec};
use crate::schema::{RelationSchema, SchemaSpec};

verus! {

/// The texts of `items` in order, with `sep` between each two.
pub open spec fn joined(items: Seq<Seq<char>>, sep: Seq<char>) -> Seq<char>
    decreases items.len(),
{
    if items.len() == 0 {
        Seq::empty()
    } else if items.len() == 1 {
        items[0]
    } else {
        joined(items.drop_last(), sep) + sep + items.last()
    }
}

/// One side of a dependency: a single attribute by its name, any other
/// number of attributes between braces.
pub open spec fn side_text(side: Seq<Attr>) -> Seq<char> {
    if side.len() == 1 {
        side[0]
    } else {
        "{"@ + joined(side, ", "@) + "}"@
    }
}

/// A dependency: its two sides with an arrow between them.
pub open spec fn dependency_text(fd: FdSpec) -> Seq<char> {
    side_text(fd.determinant) + " → "@ + side_text(fd.resultant)
}

/// The texts of the dependencies of `fds`.
pub open spec fn dependency_texts(fds: Seq<FdSpec>) -> Seq<Seq<char>> {
    Seq::new(fds.len(), |i: int| dependency_text(fds[i]))
}

/// A schema: its attributes between round brackets, then its dependencies
/// between braces.
pub open spec fn schema_text(schema: SchemaSpec) -> Seq<char> {
    "("@ + joined(schema.attributes, ", "@) + "), FD:{"@ + joined(
        dependency_texts(schema.dependencies),
        ", "@,
    ) + "}"@
}

/// A relation: its name, then its schema.
pub open spec fn relation_text(relation: RelationSpec) -> Seq<char> {
    "Relation: "@ + relation.name + schema_text(relation.schema)
}

/// The strings of `items` in order, with `sep` between each two.
pub fn join(items: &Vec<String>, sep: &str) -> (out: String)
    ensures
        out@ == joined(items.deep_view(), sep@),
{
    let ghost all = items.deep_view();
    let mut out = String::new();
    let mut i: usize = 0;
    assert(all.take(0) =~= Seq::<Seq<char>>::empty());
    while i < items.len()
        invariant
            i <= items.len(),
            all == items.deep_view(),
            out@ == joined(all.take(i as int), sep@),
        decreases items.len() - i,
    {
        let ghost before = out@;
        if i > 0 {
            out.append(sep);
        }
        out.append(items[i].as_str());
        proof {
            let upto = all.take(i as int + 1);
            assert(upto.drop_last() =~= all.take(i as int));
            assert(upto.last() == items[i as int]@);
            if i == 0 {
                assert(out@ =~= items[i as int]@);
            } else {
                assert(out@ =~= before + sep@ + items[i as int]@);
            }
        }
        i += 1;
    }
    assert(all.take(items.len() as int) =~= all);
    out
}

/// One side of a dependency as text.
fn side_to_text(side: &Vec<String>) -> (out: String)
    ensures
        out@ == side_text(side.deep_view()),
{
    if side.len() == 1 {
        side[0].clone()
    } else {
        let mut out = String::new();
        out.append("{");
        out.append(join(side, ", ").as_str());
        out.append("}");
        assert(out@ =~= "{"@ + joined(side.deep_view(), ", "@) + "}"@);
        out
    }
}

impl FunctionalDependency {
    /// The dependency as text, such as `a → b` or `{a, b} → {c, d}`.
    pub fn to_text(&self) -> (out: String)
        ensures
            out@ == dependency_text(self@),
    {
        let mut out = side_to_text(&self.determinant);
        out.append(" → ");
        out.append(side_to_text(&self.resultant).as_str());
        out
    }
}

impl RelationSchema {
    /// The schema as text, such as `(a, b), FD:{a → b}`.
    pub fn to_text(&self) -> (out: String)
        ensures
            out@ == schema_text(self@),
    {
        let fds = self.functional_dependencies();
        let ghost all = fds.deep_view();
        let mut texts: Vec<String> = Vec::new();
        let mut i: usize = 0;
        while i < fds.len()
            invariant
                i <= fds.len(),
                all == fds.deep_view(),
                texts.deep_view() == dependency_texts(all.take(i as int)),
            decreases fds.len() - i,
        {
            let ghost before = texts.deep_view();
            texts.push(fds[i].to_text());
            assert(all[i as int] == fds[i as int]@);
            assert(texts.deep_view() =~= before.push(dependency_text(all[i as int])));
            assert(texts.deep_view() =~= dependency_texts(all.take(i as int + 1)));
            i += 1;
        }
        assert(all.take(fds.len() as int) =~= all);
        let mut out = String::new();
        out.append("(");
        out.append(join(self.attributes(), ", ").as_str());
        out.append("), FD:{");
        out.append(join(&texts, ", ").as_str());
        out.append("}");
        assert(out@ =~= schema_text(self@));
        out
    }
}

impl Relation {
    /// The relation as text, such as `Relation: r(a, b), FD:{a → b}`.
    pub fn to_text(&self) -> (out: String)
        ensures
            out@ == relation_text(self@),
    {
        let mut out = String::new();
        out.append("Relation: ");
        out.append(self.relation_name.as_str());
        out.append(self.schema.to_text().as_str());
        assert(out@ =~= relation_text(self@));
        out
    }
}

} // verus!
