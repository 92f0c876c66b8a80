//! Structured values as the engine stores them.
//!
//! A stored value is a dynamically shaped unit: a scalar, a sequence, or a
//! string-keyed mapping, nested freely. The engine never looks inside one; it
//! only carries values between the caller and the serialization codec.

use vstd::prelude::*;

verus! {

/// The mathematical shape of a stored value.
///
/// Sequences keep their order; mappings are unordered and keyed by the key's
/// character sequence, so two objects that bind the same keys to the same
/// values are one and the same shape.
pub enum DbValueView {
    Null,
    Bool(bool),
    Int(int),
    Str(Seq<char>),
    Arr(Seq<DbValueView>),
    Obj(Map<Seq<char>, DbValueView>),
}

/// A structured value: the payload stored under one key of a table.
#[derive(Debug, PartialEq)]
pub enum DbValue {
    Null,
    Bool(bool),
    Int(i64),
    Str(String),
    Arr(Vec<DbValue>),
    Obj(Vec<(String, DbValue)>),
}

impl DbValue {
    /// The shape this value denotes.
    pub open spec fn model(self) -> DbValueView
        decreases self,
    {
        match self {
            DbValue::Null => DbValueView::Null,
            DbValue::Bool(b) => DbValueView::Bool(b),
            DbValue::Int(i) => DbValueView::Int(i as int),
            DbValue::Str(s) => DbValueView::Str(s@),
            DbValue::Arr(vs) => DbValueView::Arr(DbValue::arr_model(vs@)),
            DbValue::Obj(ps) => DbValueView::Obj(DbValue::obj_model(ps@)),
        }
    }

    /// The shapes of a sequence of values, in order.
    pub open spec fn arr_model(vs: Seq<DbValue>) -> Seq<DbValueView>
        decreases vs,
    {
        if vs.len() == 0 {
            Seq::empty()
        } else {
            DbValue::arr_model(vs.drop_last()).push(vs.last().model())
        }
    }

    /// The mapping denoted by a sequence of key/value pairs; a later binding
    /// of a key overrides an earlier one.
    pub open spec fn obj_model(ps: Seq<(String, DbValue)>) -> Map<Seq<char>, DbValueView>
        decreases ps,
    {
        if ps.len() == 0 {
            Map::empty()
        } else {
            DbValue::obj_model(ps.drop_last()).insert(ps.last().0@, ps.last().1.model())
        }
    }

    /// How deeply containers nest in this value: a scalar is flat, each
    /// sequence or mapping level adds one.
    pub open spec fn depth(self) -> nat
        decreases self,
    {
        match self {
            DbValue::Arr(vs) => 1 + DbValue::arr_depth(vs@),
            DbValue::Obj(ps) => 1 + DbValue::obj_depth(ps@),
            _ => 0,
        }
    }

    /// The deepest nesting among a sequence of values.
    pub open spec fn arr_depth(vs: Seq<DbValue>) -> nat
        decreases vs,
    {
        if vs.len() == 0 {
            0
        } else {
            let rest = DbValue::arr_depth(vs.drop_last());
            let last = vs.last().depth();
            if last > rest {
                last
            } else {
                rest
            }
        }
    }

    /// The deepest nesting among the values of a pair list.
    pub open spec fn obj_depth(ps: Seq<(String, DbValue)>) -> nat
        decreases ps,
    {
        if ps.len() == 0 {
            0
        } else {
            let rest = DbValue::obj_depth(ps.drop_last());
            let last = ps.last().1.depth();
            if last > rest {
                last
            } else {
                rest
            }
        }
    }
}

/// Element shapes determine the shape of the whole sequence.
proof fn lemma_arr_model_congruent(a: Seq<DbValue>, b: Seq<DbValue>)
    requires
        a.len() == b.len(),
        forall|i: int| 0 <= i < a.len() ==> a[i].model() == b[i].model(),
    ensures
        DbValue::arr_model(a) == DbValue::arr_model(b),
    decreases a.len(),
{
    if a.len() > 0 {
        lemma_arr_model_congruent(a.drop_last(), b.drop_last());
    }
}

/// Pairwise key views and value shapes determine the mapping of a pair list.
proof fn lemma_obj_model_congruent(a: Seq<(String, DbValue)>, b: Seq<(String, DbValue)>)
    requires
        a.len() == b.len(),
        forall|i: int| 0 <= i < a.len() ==> a[i].0@ == b[i].0@ && a[i].1.model() == b[i].1.model(),
    ensures
        DbValue::obj_model(a) == DbValue::obj_model(b),
    decreases a.len(),
{
    if a.len() > 0 {
        lemma_obj_model_congruent(a.drop_last(), b.drop_last());
    }
}

impl Clone for DbValue {
    /// A clone denotes the same shape as the original.
    fn clone(&self) -> (r: Self)
        ensures
            r.model() == self.model(),
        decreases *self,
    {
        match self {
            DbValue::Null => DbValue::Null,
            DbValue::Bool(b) => DbValue::Bool(*b),
            DbValue::Int(i) => DbValue::Int(*i),
            DbValue::Str(s) => DbValue::Str(s.clone()),
            DbValue::Arr(vs) => {
                let mut out: Vec<DbValue> = Vec::new();
                let mut i: usize = 0;
                while i < vs.len()
                    invariant
                        *self == DbValue::Arr(*vs),
                        i <= vs@.len(),
                        out@.len() == i as int,
                        forall|j: int| 0 <= j < i ==> out@[j].model() == vs@[j].model(),
                    decreases vs@.len() - i,
                {
                    proof {
                        assert(decreases_to!(*self => (*self)->Arr_0));
                        assert((*self)->Arr_0 == *vs);
                        assert(decreases_to!(*vs => vs@));
                        assert(decreases_to!(vs@ => vs@[i as int]));
                        assert(decreases_to!(*self => vs@[i as int]));
                    }
                    let c = vs[i].clone();
                    out.push(c);
                    i = i + 1;
                }
                proof {
                    lemma_arr_model_congruent(out@, vs@);
                }
                DbValue::Arr(out)
            }
            DbValue::Obj(ps) => {
                let mut out: Vec<(String, DbValue)> = Vec::new();
                let mut i: usize = 0;
                while i < ps.len()
                    invariant
                        *self == DbValue::Obj(*ps),
                        i <= ps@.len(),
                        out@.len() == i as int,
                        forall|j: int| 0 <= j < i ==> out@[j].0@ == ps@[j].0@
                            && out@[j].1.model() == ps@[j].1.model(),
                    decreases ps@.len() - i,
                {
                    proof {
                        assert(decreases_to!(*self => (*self)->Obj_0));
                        assert((*self)->Obj_0 == *ps);
                        assert(decreases_to!(*ps => ps@));
                        assert(decreases_to!(ps@ => ps@[i as int]));
                        assert(decreases_to!(ps@[i as int] => ps@[i as int].1));
                        assert(decreases_to!(*self => ps@[i as int].1));
                    }
                    let k = ps[i].0.clone();
                    let v = ps[i].1.clone();
                    out.push((k, v));
                    i = i + 1;
                }
                proof {
                    lemma_obj_model_congruent(out@, ps@);
                }
                DbValue::Obj(out)
            }
        }
    }
}

} // verus!
