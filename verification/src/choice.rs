//! Building the nodes that choose among their arguments, and the node that holds the value a
//! mapped function is given. Arguments of different types are chosen among as text.

use vstd::prelude::*;
use crate::ast::GenType;
use crate::runtime::{Node, NodeView, Runtime};

verus! {

/// The type of a choice among arguments of the types `ts`: their common type when they all
/// have one, else `String`.
pub open spec fn bottom_type(ts: Seq<GenType>) -> GenType {
    if ts.len() > 0 && forall|k: int| 0 <= k < ts.len() ==> #[trigger] ts[k] == ts[0] {
        ts[0]
    } else {
        GenType::String
    }
}

/// A value of type `t` can be written as text by a node.
pub open spec fn has_text(t: GenType) -> bool {
    t == GenType::String || t == GenType::Boolean || t == GenType::Char || t == GenType::Int || t == GenType::Uint
}

/// The types of the nodes `args` of `rt`.
pub open spec fn arg_types(rt: Runtime, args: Seq<usize>) -> Seq<GenType> {
    Seq::new(args.len(), |k: int| rt.node_types()[args[k] as int])
}

/// A choice among the nodes `args` of `rt` can be built: there is at least one, their common
/// type is not `Decimal`, and when they have none, each can be written as text.
pub open spec fn choice_buildable(rt: Runtime, args: Seq<usize>) -> bool {
    let ts = arg_types(rt, args);
    &&& args.len() > 0
    &&& bottom_type(ts) != GenType::Decimal
    &&& bottom_type(ts) == GenType::String ==> forall|k: int| 0 <= k < ts.len() ==> has_text(#[trigger] ts[k])
}

/// The option `o` of a choice, in `after`, stands for argument `a` of `before`: it is `a`
/// when `a` has the type of the choice, else a node that writes `a` as text.
pub open spec fn option_of(before: Runtime, after: Runtime, t: GenType, a: usize, o: usize) -> bool {
    if before.node_types()[a as int] == t {
        o == a
    } else {
        after.node_views()[o as int] == NodeView::ToString(a) && after.node_types()[o as int] == GenType::String
    }
}

/// Node `i` of `after`, its last, chooses among options that stand for the arguments `args` of
/// `before`, for good when `stable`, and has the type of the choice.
pub open spec fn choice_built(before: Runtime, after: Runtime, args: Seq<usize>, stable: bool, i: usize) -> bool {
    let t = bottom_type(arg_types(before, args));
    &&& i + 1 == after.node_views().len()
    &&& after.node_types()[i as int] == t
    &&& match after.node_views()[i as int] {
        NodeView::Select(os) => !stable && options_of(before, after, t, args, os),
        NodeView::StableSelect(os) => stable && options_of(before, after, t, args, os),
        _ => false,
    }
}

/// The options `os` of a choice, in `after`, stand one for one for the arguments `args` of
/// `before`.
pub open spec fn options_of(before: Runtime, after: Runtime, t: GenType, args: Seq<usize>, os: Seq<usize>) -> bool {
    &&& os.len() == args.len()
    &&& forall|k: int| 0 <= k < args.len() ==> option_of(before, after, t, #[trigger] args[k], os[k])
}

/// Adds a node that chooses among `args` (for good, when `stable`), converting each argument
/// to text when they do not all have one type.
fn create_choice(args: &Vec<usize>, rt: &mut Runtime, stable: bool) -> (r: Result<usize, String>)
    requires
        old(rt).wf(),
        forall|k: int| 0 <= k < args@.len() ==> #[trigger] args@[k] < old(rt).node_views().len(),
        old(rt).node_views().len() + args@.len() + 1 < usize::MAX,
    ensures
        final(rt).wf(),
        final(rt).extends(old(rt)),
        r is Ok <==> choice_buildable(*old(rt), args@),
        r matches Ok(i) ==> choice_built(*old(rt), *final(rt), args@, stable, i),
{
    let ghost before = *rt;
    let ghost ts = arg_types(before, args@);
    proof {
        rt.lemma_wf();
    }
    if args.len() == 0 {
        return Err(String::from_str("At least one argument is needed"));
    }
    let first = rt.type_of(args[0]);
    let mut same = true;
    let mut k: usize = 0;
    while k < args.len()
        invariant
            rt.wf(),
            *rt == before,
            rt.node_types().len() == rt.node_views().len(),
            0 <= k <= args@.len(),
            args@.len() > 0,
            first == ts[0],
            ts == arg_types(before, args@),
            forall|j: int| 0 <= j < args@.len() ==> #[trigger] args@[j] < rt.node_views().len(),
            same <==> forall|j: int| 0 <= j < k ==> #[trigger] ts[j] == ts[0],
        decreases args@.len() - k,
    {
        assert(ts[k as int] == rt.node_types()[args@[k as int] as int]);
        if rt.type_of(args[k]) != first {
            same = false;
        }
        k = k + 1;
    }
    let t = if same {
        first
    } else {
        GenType::String
    };
    assert(t == bottom_type(ts));
    if t == GenType::Decimal {
        return Err(String::from_str("Decimal values are not supported"));
    }
    let mut os: Vec<usize> = Vec::new();
    let mut j: usize = 0;
    while j < args.len()
        invariant
            rt.wf(),
            rt.extends(&before),
            before.wf(),
            before == *old(rt),
            rt.node_types().len() == rt.node_views().len(),
            0 <= j <= args@.len(),
            ts == arg_types(before, args@),
            t == bottom_type(ts),
            t != GenType::Decimal,
            forall|m: int| 0 <= m < args@.len() ==> #[trigger] args@[m] < before.node_views().len(),
            before.node_views().len() + args@.len() + 1 < usize::MAX,
            rt.node_views().len() <= before.node_views().len() + j,
            os@.len() == j,
            forall|m: int| 0 <= m < j ==> (#[trigger] os@[m]) < rt.node_views().len() && rt.node_types()[os@[m] as int] == t,
            forall|m: int| 0 <= m < j ==> option_of(before, *rt, t, #[trigger] args@[m], os@[m]),
            forall|m: int| 0 <= m < j ==> has_text(ts[m]) || ts[m] == t,
        decreases args@.len() - j,
    {
        let a = args[j];
        proof {
            rt.lemma_wf();
            Runtime::lemma_extends_keeps(rt, &before, a as int);
        }
        let at = rt.type_of(a);
        assert(at == ts[j as int]);
        let ghost prev = *rt;
        if at == t {
            os.push(a);
        } else {
            if at != GenType::Boolean && at != GenType::Char && at != GenType::Int && at != GenType::Uint {
                proof {
                    assert(t == GenType::String);
                    assert(!has_text(ts[j as int]));
                }
                return Err(String::from_str("The arguments cannot be written as text"));
            }
            assert(t == GenType::String);
            let o = rt.add(Node::ToString(a), GenType::String);
            proof {
                assert forall|m: int| 0 <= m < j implies option_of(before, *rt, t, #[trigger] args@[m], os@[m]) by {
                    assert(option_of(before, prev, t, args@[m], os@[m]));
                    if before.node_types()[args@[m] as int] != t {
                        assert(os@[m] < prev.node_views().len());
                        assert(rt.node_views()[os@[m] as int] == prev.node_views()[os@[m] as int]);
                    }
                };
                Runtime::lemma_extends_trans(rt, &prev, &before);
            }
            os.push(o);
        }
        proof {
            assert forall|m: int| 0 <= m < j + 1 implies option_of(before, *rt, t, #[trigger] args@[m], os@[m]) by {
                if m < j {
                } else {
                    assert(args@[m] == a);
                }
            };
        }
        j = j + 1;
    }
    proof {
        assert(choice_buildable(before, args@));
        rt.lemma_wf();
    }
    let ghost mid = *rt;
    let ghost osv = os@;
    let node = if stable {
        Node::StableSelect(os)
    } else {
        Node::Select(os)
    };
    let i = rt.add(node, t);
    proof {
        Runtime::lemma_extends_trans(rt, &mid, &before);
        assert forall|m: int| 0 <= m < args@.len() implies option_of(before, *rt, t, #[trigger] args@[m], osv[m]) by {
            assert(option_of(before, mid, t, args@[m], osv[m]));
            if before.node_types()[args@[m] as int] != t {
                assert(rt.node_views()[osv[m] as int] == mid.node_views()[osv[m] as int]);
            }
        };
        assert(osv.len() == args@.len());
        assert(rt.node_views()[i as int] == (if stable {
            NodeView::StableSelect(osv)
        } else {
            NodeView::Select(osv)
        }));
        assert(rt.node_types()[i as int] == t);
        assert(i + 1 == rt.node_views().len());
        assert(t == bottom_type(arg_types(before, args@)));
        assert(forall|k: int| 0 <= k < args@.len() ==> option_of(before, *rt, t, #[trigger] args@[k], osv[k]));
        assert(choice_built(before, *rt, args@, stable, i));
    }
    Ok(i)
}

/// Adds a node that gives the value of one of `args` at random, each as likely, as text when
/// the arguments do not all have one type.
pub fn create_one_of(args: &Vec<usize>, rt: &mut Runtime) -> (r: Result<usize, String>)
    requires
        old(rt).wf(),
        forall|k: int| 0 <= k < args@.len() ==> #[trigger] args@[k] < old(rt).node_views().len(),
        old(rt).node_views().len() + args@.len() + 1 < usize::MAX,
    ensures
        final(rt).wf(),
        final(rt).extends(old(rt)),
        r is Ok <==> choice_buildable(*old(rt), args@),
        r matches Ok(i) ==> choice_built(*old(rt), *final(rt), args@, false, i),
{
    create_choice(args, rt, false)
}

/// Adds a node that picks one of `args` at random the first time and keeps to it, as text when
/// the arguments do not all have one type.
pub fn create_stable_select(args: &Vec<usize>, rt: &mut Runtime) -> (r: Result<usize, String>)
    requires
        old(rt).wf(),
        forall|k: int| 0 <= k < args@.len() ==> #[trigger] args@[k] < old(rt).node_views().len(),
        old(rt).node_views().len() + args@.len() + 1 < usize::MAX,
    ensures
        final(rt).wf(),
        final(rt).extends(old(rt)),
        r is Ok <==> choice_buildable(*old(rt), args@),
        r matches Ok(i) ==> choice_built(*old(rt), *final(rt), args@, true, i),
{
    create_choice(args, rt, true)
}

/// Adds a node that gives the value of either of two arguments, each as likely, as text when
/// they differ in type. A first argument that gives the frequency of the first choice is a
/// decimal, and refused.
pub fn create_either(args: &Vec<usize>, rt: &mut Runtime) -> (r: Result<usize, String>)
    requires
        old(rt).wf(),
        forall|k: int| 0 <= k < args@.len() ==> #[trigger] args@[k] < old(rt).node_views().len(),
        old(rt).node_views().len() + args@.len() + 1 < usize::MAX,
    ensures
        final(rt).wf(),
        final(rt).extends(old(rt)),
        r is Ok <==> args@.len() == 2 && choice_buildable(*old(rt), args@),
        r matches Ok(i) ==> choice_built(*old(rt), *final(rt), args@, false, i),
{
    if args.len() != 2 {
        proof {
            assert(rt.node_views().subrange(0, rt.node_views().len() as int) =~= rt.node_views());
            assert(rt.node_types().subrange(0, rt.node_types().len() as int) =~= rt.node_types());
        }
        if args.len() == 3 {
            return Err(String::from_str("Decimal values are not supported"));
        }
        return Err(String::from_str("either takes two arguments"));
    }
    create_choice(args, rt, false)
}

/// Adds the node that holds the value a mapped function is given: it generates a value of
/// `gen` once, and gives it again until it is reset. Nothing when the program is too large.
pub fn create_arg(rt: &mut Runtime, gen: usize) -> (r: Option<usize>)
    requires
        old(rt).wf(),
        gen < old(rt).node_views().len(),
        old(rt).node_types()[gen as int] != GenType::Decimal,
    ensures
        final(rt).wf(),
        final(rt).extends(old(rt)),
        r is Some <==> old(rt).node_views().len() < usize::MAX - 1,
        r matches Some(i) ==> i == old(rt).node_views().len() && final(rt).node_views() == old(rt).node_views().push(
            NodeView::Memo(gen),
        ) && final(rt).node_types() == old(rt).node_types().push(old(rt).node_types()[gen as int]),
        r is None ==> *final(rt) == *old(rt),
{
    proof {
        rt.lemma_wf();
    }
    if rt.len() >= usize::MAX - 1 {
        return None;
    }
    let t = rt.type_of(gen);
    Some(rt.add(Node::Memo(gen), t))
}

/// `one_of` over unsigned integers.
pub struct OneOfUint;

/// `one_of` over text, which takes arguments of mixed types.
pub struct OneOfString;

/// `either` with even odds.
pub struct EitherFun;

/// `either` whose first argument gives the frequency of the first choice.
pub struct EitherFreqFun;

/// `stable_select`.
pub struct StableSelectFun;

impl OneOfUint {
    pub fn get_name(&self) -> (s: &'static str)
        ensures
            s@ == "one_of"@,
    {
        "one_of"
    }

    pub fn get_arg_types(&self) -> (r: (Vec<GenType>, bool))
        ensures
            r.0@ == seq![GenType::Uint],
            r.1,
    {
        (vec![GenType::Uint], true)
    }

    pub fn get_description(&self) -> (s: &'static str)
        ensures
            s@ == "randomly selects one of the given arguments using a uniform distribution"@,
    {
        "randomly selects one of the given arguments using a uniform distribution"
    }

    /// A node that gives the value of one of `args` at random.
    pub fn create(&self, args: &Vec<usize>, rt: &mut Runtime) -> (r: Result<usize, String>)
        requires
            old(rt).wf(),
            forall|k: int| 0 <= k < args@.len() ==> #[trigger] args@[k] < old(rt).node_views().len(),
            old(rt).node_views().len() + args@.len() + 1 < usize::MAX,
        ensures
            final(rt).wf(),
            final(rt).extends(old(rt)),
            r is Ok <==> choice_buildable(*old(rt), args@),
            r matches Ok(i) ==> choice_built(*old(rt), *final(rt), args@, false, i),
    {
        create_one_of(args, rt)
    }
}

impl OneOfString {
    pub fn get_name(&self) -> (s: &'static str)
        ensures
            s@ == "one_of"@,
    {
        "one_of"
    }

    pub fn get_arg_types(&self) -> (r: (Vec<GenType>, bool))
        ensures
            r.0@ == seq![GenType::String],
            r.1,
    {
        (vec![GenType::String], true)
    }

    pub fn get_description(&self) -> (s: &'static str)
        ensures
            s@ == "randomly selects one of the given arguments using a uniform distribution. Allows for mixed input types"@,
    {
        "randomly selects one of the given arguments using a uniform distribution. Allows for mixed input types"
    }

    /// A node that gives the value of one of `args` at random, as text when their types differ.
    pub fn create(&self, args: &Vec<usize>, rt: &mut Runtime) -> (r: Result<usize, String>)
        requires
            old(rt).wf(),
            forall|k: int| 0 <= k < args@.len() ==> #[trigger] args@[k] < old(rt).node_views().len(),
            old(rt).node_views().len() + args@.len() + 1 < usize::MAX,
        ensures
            final(rt).wf(),
            final(rt).extends(old(rt)),
            r is Ok <==> choice_buildable(*old(rt), args@),
            r matches Ok(i) ==> choice_built(*old(rt), *final(rt), args@, false, i),
    {
        create_one_of(args, rt)
    }
}

impl EitherFun {
    pub fn get_name(&self) -> (s: &'static str)
        ensures
            s@ == "either"@,
    {
        "either"
    }

    pub fn get_arg_types(&self) -> (r: (Vec<GenType>, bool))
        ensures
            r.0@ == seq![GenType::String, GenType::String],
            !r.1,
    {
        (vec![GenType::String, GenType::String], false)
    }

    pub fn get_description(&self) -> (s: &'static str)
        ensures
            s@ == "Selects either the first or the second expression, with a 50% frequency"@,
    {
        "Selects either the first or the second expression, with a 50% frequency"
    }

    /// A node that gives the value of either of the two arguments, as text when their types
    /// differ.
    pub fn create(&self, args: &Vec<usize>, rt: &mut Runtime) -> (r: Result<usize, String>)
        requires
            old(rt).wf(),
            args@.len() == 2,
            forall|k: int| 0 <= k < args@.len() ==> #[trigger] args@[k] < old(rt).node_views().len(),
            old(rt).node_views().len() + args@.len() + 1 < usize::MAX,
        ensures
            final(rt).wf(),
            final(rt).extends(old(rt)),
            r is Ok <==> choice_buildable(*old(rt), args@),
            r matches Ok(i) ==> choice_built(*old(rt), *final(rt), args@, false, i),
    {
        create_either(args, rt)
    }
}

impl EitherFreqFun {
    pub fn get_name(&self) -> (s: &'static str)
        ensures
            s@ == "either"@,
    {
        "either"
    }

    pub fn get_arg_types(&self) -> (r: (Vec<GenType>, bool))
        ensures
            r.0@ == seq![GenType::Decimal, GenType::String, GenType::String],
            !r.1,
    {
        (vec![GenType::Decimal, GenType::String, GenType::String], false)
    }

    pub fn get_description(&self) -> (s: &'static str)
        ensures
            s@ == "Just like select2(Any, Any) except that the first argument determines the frequency with which the first possiblility will be selected"@,
    {
        "Just like select2(Any, Any) except that the first argument determines the frequency with which the first possiblility will be selected"
    }

    /// The frequency is a decimal, and decimal values are refused: no node is added.
    pub fn create(&self, args: &Vec<usize>, rt: &mut Runtime) -> (r: Result<usize, String>)
        requires
            old(rt).wf(),
            args@.len() == 3,
            forall|k: int| 0 <= k < args@.len() ==> #[trigger] args@[k] < old(rt).node_views().len(),
            old(rt).node_views().len() + args@.len() + 1 < usize::MAX,
        ensures
            *final(rt) == *old(rt),
            r matches Err(m) && m@ == "Decimal values are not supported"@,
    {
        Err(String::from_str("Decimal values are not supported"))
    }
}

impl StableSelectFun {
    pub fn get_name(&self) -> (s: &'static str)
        ensures
            s@ == "stable_select"@,
    {
        "stable_select"
    }

    pub fn get_arg_types(&self) -> (r: (Vec<GenType>, bool))
        ensures
            r.0@ == seq![GenType::String],
            r.1,
    {
        (vec![GenType::String], true)
    }

    pub fn get_description(&self) -> (s: &'static str)
        ensures
            s@ == "Randomly selects one of it's inputs, and then continues to select the same one forever. Note that whichever input is selected may still generate different values."@,
    {
        "Randomly selects one of it's inputs, and then continues to select the same one forever. Note that whichever input is selected may still generate different values."
    }

    /// A node that picks one of `args` the first time and keeps to it, as text when their types
    /// differ.
    pub fn create(&self, args: &Vec<usize>, rt: &mut Runtime) -> (r: Result<usize, String>)
        requires
            old(rt).wf(),
            forall|k: int| 0 <= k < args@.len() ==> #[trigger] args@[k] < old(rt).node_views().len(),
            old(rt).node_views().len() + args@.len() + 1 < usize::MAX,
        ensures
            final(rt).wf(),
            final(rt).extends(old(rt)),
            r is Ok <==> choice_buildable(*old(rt), args@),
            r matches Ok(i) ==> choice_built(*old(rt), *final(rt), args@, true, i),
    {
        create_stable_select(args, rt)
    }
}

} // verus!
