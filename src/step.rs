//! Migration steps: a name that identifies and orders them (a timestamp
//! token such as `m20240718_000001_create_user`), and the instructions that
//! apply them.
use vstd::prelude::*;
use vstd::string::StrSliceExecFns;
use crate::schema::{SchemaOp, Table, inverse_op, inverse_ops};

verus! {

/// `a` and `b` agree on their first `i` characters, and there `a` ends
/// first or has the smaller character.
pub open spec fn name_lt_at(a: Seq<char>, b: Seq<char>, i: int) -> bool {
    &&& 0 <= i <= a.len()
    &&& i <= b.len()
    &&& a.subrange(0, i) == b.subrange(0, i)
    &&& ((i == a.len() && i < b.len()) || (i < a.len() && i < b.len() && (a[i] as u32) < (
    b[i] as u32)))
}

/// Names are ordered lexicographically, character by character; for names
/// that start with a fixed-width timestamp this is chronological order.
pub open spec fn name_lt(a: Seq<char>, b: Seq<char>) -> bool {
    exists|i: int| name_lt_at(a, b, i)
}

/// No name comes before itself.
pub proof fn lemma_name_lt_irreflexive(a: Seq<char>)
    ensures
        !name_lt(a, a),
{
}

/// The order on names is transitive.
pub proof fn lemma_name_lt_transitive(a: Seq<char>, b: Seq<char>, c: Seq<char>)
    requires
        name_lt(a, b),
        name_lt(b, c),
    ensures
        name_lt(a, c),
{
    let i = choose|i: int| name_lt_at(a, b, i);
    let j = choose|j: int| name_lt_at(b, c, j);
    let k = if i < j { i } else { j };
    assert forall|x: int| 0 <= x < k implies a[x] == c[x] by {
        assert(a.subrange(0, i)[x] == b.subrange(0, i)[x]);
        assert(b.subrange(0, j)[x] == c.subrange(0, j)[x]);
    }
    if i < j {
        assert(i < b.len());
        assert(b.subrange(0, j)[i] == c.subrange(0, j)[i]);
    } else if j < i {
        assert(a.subrange(0, i)[j] == b.subrange(0, i)[j]);
    }
    assert(a.subrange(0, k) =~= c.subrange(0, k));
    assert(name_lt_at(a, c, k));
}

/// Whether name `a` comes strictly before name `b`.
pub fn name_precedes(a: &str, b: &str) -> (r: bool)
    ensures
        r == name_lt(a@, b@),
{
    let na = a.unicode_len();
    let nb = b.unicode_len();
    let mut i: usize = 0;
    while i < na && i < nb
        invariant
            na == a@.len(),
            nb == b@.len(),
            i <= na,
            i <= nb,
            a@.subrange(0, i as int) == b@.subrange(0, i as int),
        decreases na - i,
    {
        let ca = a.get_char(i);
        let cb = b.get_char(i);
        if ca != cb {
            let r = (ca as u32) < (cb as u32);
            proof {
                if r {
                    assert(name_lt_at(a@, b@, i as int));
                } else {
                    assert forall|k: int| !name_lt_at(a@, b@, k) by {
                        if name_lt_at(a@, b@, k) && k > i {
                            assert(a@.subrange(0, k)[i as int] == b@.subrange(0, k)[i as int]);
                        }
                        if name_lt_at(a@, b@, k) && k < i {
                            assert(a@.subrange(0, i as int)[k] == b@.subrange(0, i as int)[k]);
                        }
                    }
                }
            }
            return r;
        }
        proof {
            assert(a@.subrange(0, i + 1) =~= a@.subrange(0, i as int).push(ca));
            assert(b@.subrange(0, i + 1) =~= b@.subrange(0, i as int).push(cb));
        }
        i = i + 1;
    }
    let r = i == na && i < nb;
    proof {
        if r {
            assert(name_lt_at(a@, b@, i as int));
        } else {
            assert forall|k: int| !name_lt_at(a@, b@, k) by {
                if name_lt_at(a@, b@, k) && k < i {
                    assert(a@.subrange(0, i as int)[k] == b@.subrange(0, i as int)[k]);
                }
            }
        }
    }
    r
}

/// What a step is, as a mathematical value.
pub struct StepSpec {
    pub name: Seq<char>,
    pub up: Seq<SchemaOp>,
    pub reversible: bool,
}

impl StepSpec {
    /// The instructions that revert the step: those that undo `up`, where the
    /// step can be reverted at all.
    pub open spec fn down(self) -> Option<Seq<SchemaOp>> {
        if self.reversible {
            Some(inverse_ops(self.up))
        } else {
            None
        }
    }
}

/// One versioned, named schema change.
pub struct MigrationStep {
    /// The step's identity.
    pub name: String,
    pub up: Vec<SchemaOp>,
    /// Whether the step has a revert; if so, it is the inverse of `up`.
    pub reversible: bool,
}

impl View for MigrationStep {
    type V = StepSpec;

    open spec fn view(&self) -> StepSpec {
        StepSpec {
            name: self.name@,
            up: self.up@,
            reversible: self.reversible,
        }
    }
}

/// The values of a sequence of steps.
pub open spec fn views_of(steps: Seq<MigrationStep>) -> Seq<StepSpec> {
    steps.map_values(|s: MigrationStep| s@)
}

impl MigrationStep {
    /// A step that creates `table` and is reverted by dropping it.
    pub fn create_table(name: &str, table: Table) -> (r: MigrationStep)
        ensures
            r@ == (StepSpec {
                name: name@,
                up: seq![SchemaOp::CreateTable(table)],
                reversible: true,
            }),
    {
        let up = vec![SchemaOp::CreateTable(table)];
        assert(up@ =~= seq![SchemaOp::CreateTable(table)]);
        MigrationStep { name: name.to_owned(), up, reversible: true }
    }

    /// A step that drops `table` and cannot be reverted.
    pub fn drop_table(name: &str, table: Table) -> (r: MigrationStep)
        ensures
            r@ == (StepSpec {
                name: name@,
                up: seq![SchemaOp::DropTable(table)],
                reversible: false,
            }),
    {
        let up = vec![SchemaOp::DropTable(table)];
        assert(up@ =~= seq![SchemaOp::DropTable(table)]);
        MigrationStep { name: name.to_owned(), up, reversible: false }
    }

    /// The instructions that revert the step, if it has a revert.
    pub fn down(&self) -> (r: Option<Vec<SchemaOp>>)
        ensures
            match self@.down() {
                Some(d) => r is Some && r->Some_0@ == d,
                None => r is None,
            },
    {
        if !self.reversible {
            return None;
        }
        let mut r: Vec<SchemaOp> = Vec::new();
        let mut i: usize = self.up.len();
        assert(self.up@.skip(i as int) =~= Seq::<SchemaOp>::empty());
        while i > 0
            invariant
                i <= self.up@.len(),
                r@ == inverse_ops(self.up@.skip(i as int)),
            decreases i,
        {
            let ghost tail = self.up@.skip(i - 1);
            assert(tail.skip(1) =~= self.up@.skip(i as int));
            assert(tail[0] == self.up@[i - 1]);
            let inv = match self.up[i - 1] {
                SchemaOp::CreateTable(t) => SchemaOp::DropTable(t),
                SchemaOp::DropTable(t) => SchemaOp::CreateTable(t),
            };
            assert(inv == inverse_op(tail[0]));
            r.push(inv);
            i = i - 1;
        }
        assert(self.up@.skip(0) =~= self.up@);
        Some(r)
    }
}

} // verus!
