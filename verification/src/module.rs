//! Modules: the named sets of functions that sources define.

use vstd::prelude::*;
use std::sync::Arc;
use crate::ast::{IString, MacroDef, WithSpan};
use crate::prototype::{
    proto_name, proto_text, same_signature, FunctionPrototype, InterpretedFunctionPrototype,
};
use crate::errors::SourceRef;
use crate::source::{module_name_of, Source};
use crate::text::{chars_of, push_all, string_from_chars};

verus! {

/// The functions of a module, in the order they were added.
#[derive(Debug)]
pub struct Module {
    name: IString,
    source: Arc<Source>,
    functions: Vec<FunctionPrototype>,
}

/// No two of the functions have the same signature.
pub open spec fn distinct_signatures(fs: Seq<FunctionPrototype>) -> bool {
    forall|i: int, j: int| 0 <= i < j < fs.len() ==> !same_signature(#[trigger] fs[i], #[trigger] fs[j])
}

/// The message that refuses a function whose signature `existing` already has.
pub open spec fn duplicate_text(module: Seq<char>, existing: FunctionPrototype, new: FunctionPrototype) -> Seq<char> {
    "Module '"@ + module + "' contains multiple functions with the same signature. \nA: "@ + proto_text(existing)
        + " \nB: "@ + proto_text(new)
}

/// The prototype that `source` gives definition `d`.
pub open spec fn defined_function(source: Arc<Source>, d: WithSpan<MacroDef>) -> FunctionPrototype {
    FunctionPrototype::Interpreted(
        InterpretedFunctionPrototype {
            source_ref: SourceRef { source, span: d.span },
            function_name: d.value.name,
            arguments: d.value.args,
            doc_comments: d.value.doc_comments,
            body: d.value.body,
        },
    )
}

/// The prototypes of the definitions, in order.
pub open spec fn defined_functions(source: Arc<Source>, defs: Seq<WithSpan<MacroDef>>) -> Seq<FunctionPrototype> {
    defs.map_values(|d: WithSpan<MacroDef>| defined_function(source, d))
}

impl Module {
    /// The module's name.
    pub closed spec fn name_view(&self) -> Seq<char> {
        self.name@
    }

    /// The module's name.
    pub fn name(&self) -> (n: &IString)
        ensures
            n@ == self.name_view(),
    {
        &self.name
    }

    /// The functions of the module.
    pub closed spec fn functions(&self) -> Seq<FunctionPrototype> {
        self.functions@
    }

    /// The module's functions have distinct signatures.
    pub closed spec fn wf(&self) -> bool {
        distinct_signatures(self.functions@)
    }

    /// A well-formed module has no two functions with the same signature.
    pub proof fn lemma_wf_distinct(&self)
        requires
            self.wf(),
        ensures
            distinct_signatures(self.functions()),
    {
    }

    /// An empty module named after `source`.
    pub fn empty(source: Arc<Source>) -> (m: Module)
        ensures
            m.wf(),
            m.functions().len() == 0,
            m.name_view() == module_name_of(source.origin()),
    {
        Module { name: source.module_name(), source, functions: Vec::new() }
    }

    /// The module that `source` defines with `function_defs`, its functions in the order of
    /// the definitions; refused, naming the first clash, when two of them have the same
    /// signature.
    pub fn new(source: Arc<Source>, function_defs: Vec<WithSpan<MacroDef>>) -> (r: Result<Module, String>)
        ensures
            r is Ok <==> distinct_signatures(defined_functions(source, function_defs@)),
            r matches Ok(m) ==> m.wf() && m.name_view() == module_name_of(source.origin())
                && m.functions() == defined_functions(source, function_defs@),
            r matches Err(msg) ==> exists|i: int, j: int|
                0 <= i < j < function_defs@.len() && same_signature(
                    #[trigger] defined_functions(source, function_defs@)[i],
                    #[trigger] defined_functions(source, function_defs@)[j],
                ) && msg@ == duplicate_text(
                    module_name_of(source.origin()),
                    defined_functions(source, function_defs@)[i],
                    defined_functions(source, function_defs@)[j],
                ),
    {
        let ghost orig = function_defs@;
        let ghost fs = defined_functions(source, orig);
        let ghost total = orig.len();
        let mut module = Module::empty(source.clone());
        let mut rest = function_defs;
        let mut defs: Vec<WithSpan<MacroDef>> = Vec::new();
        while rest.len() > 0
            invariant
                orig == function_defs@,
                total == orig.len(),
                rest@ == orig.take(rest@.len() as int),
                rest@.len() <= total,
                defs@.len() + rest@.len() == total,
                forall|k: int| 0 <= k < defs@.len() ==> #[trigger] defs@[k] == orig[total - 1 - k],
            decreases rest@.len(),
        {
            let ghost before = rest@;
            let ghost n = defs@.len();
            let d = rest.pop().unwrap();
            assert(rest@ =~= orig.take(rest@.len() as int)) by {
                assert(before =~= orig.take(before.len() as int));
            }
            assert(d == orig[total - 1 - n]) by {
                assert(before =~= orig.take(before.len() as int));
                assert(before[before.len() - 1] == orig[before.len() - 1]);
            }
            defs.push(d);
        }
        while defs.len() > 0
            invariant
                module.wf(),
                module.name_view() == module_name_of(source.origin()),
                orig == function_defs@,
                total == orig.len(),
                fs == defined_functions(source, orig),
                fs.len() == total,
                module.functions().len() + defs@.len() == total,
                module.functions() == fs.take(module.functions().len() as int),
                forall|k: int| 0 <= k < defs@.len() ==> #[trigger] defs@[k] == orig[total - 1 - k],
            decreases defs@.len(),
        {
            let ghost t = module.functions().len() as int;
            let def = defs.pop().unwrap();
            let f = FunctionPrototype::Interpreted(InterpretedFunctionPrototype::new(source.clone(), def));
            assert(f == fs[t]);
            match module.add_function(f) {
                Ok(()) => {
                    assert(module.functions() =~= fs.take(t + 1));
                },
                Err(msg) => {
                    proof {
                        let k = choose|k: int| 0 <= k < t && same_signature(#[trigger] fs.take(t)[k], fs[t])
                            && msg@ == duplicate_text(module_name_of(source.origin()), fs.take(t)[k], fs[t]);
                        assert(fs.take(t)[k] == fs[k]);
                        assert(same_signature(fs[k], fs[t]));
                        assert(fs[k] == defined_functions(source, function_defs@)[k]);
                        assert(fs[t] == defined_functions(source, function_defs@)[t]);
                        assert(!distinct_signatures(defined_functions(source, function_defs@)));
                    }
                    return Err(msg);
                },
            }
        }
        assert(module.functions() =~= fs);
        Ok(module)
    }

    /// Adds a function; refused, with the module unchanged, when the module has a function
    /// with the same signature.
    pub fn add_function(&mut self, new_function: FunctionPrototype) -> (r: Result<(), String>)
        requires
            old(self).wf(),
        ensures
            final(self).wf(),
            final(self).name_view() == old(self).name_view(),
            r is Ok <==> forall|k: int| 0 <= k < old(self).functions().len() ==> !same_signature(
                #[trigger] old(self).functions()[k],
                new_function,
            ),
            r is Ok ==> final(self).functions() == old(self).functions().push(new_function),
            r matches Err(m) ==> final(self).functions() == old(self).functions() && exists|k: int|
                0 <= k < old(self).functions().len() && same_signature(#[trigger] old(self).functions()[k], new_function)
                    && m@ == duplicate_text(old(self).name_view(), old(self).functions()[k], new_function),
    {
        let mut k: usize = 0;
        while k < self.functions.len()
            invariant
                0 <= k <= self.functions@.len(),
                self.functions@ == old(self).functions@,
                self.name == old(self).name,
                self.wf(),
                forall|j: int| 0 <= j < k ==> !same_signature(#[trigger] self.functions@[j], new_function),
            decreases self.functions@.len() - k,
        {
            if self.functions[k].is_same_signature(&new_function) {
                let mut msg = chars_of("Module '");
                push_all(&mut msg, chars_of(self.name.as_str()).as_slice());
                push_all(&mut msg, chars_of("' contains multiple functions with the same signature. \nA: ").as_slice());
                push_all(&mut msg, self.functions[k].render().as_slice());
                push_all(&mut msg, chars_of(" \nB: ").as_slice());
                push_all(&mut msg, new_function.render().as_slice());
                assert(same_signature(old(self).functions()[k as int], new_function));
                return Err(string_from_chars(msg.as_slice()));
            }
            k = k + 1;
        }
        let ghost before = self.functions@;
        self.functions.push(new_function);
        proof {
            assert forall|i: int, j: int| 0 <= i < j < self.functions@.len() implies !same_signature(
                #[trigger] self.functions@[i],
                #[trigger] self.functions@[j],
            ) by {
                if j < before.len() {
                    assert(self.functions@[i] == before[i] && self.functions@[j] == before[j]);
                } else {
                    assert(self.functions@[i] == before[i]);
                }
            }
        }
        Ok(())
    }

    /// Adds the functions of `other`, in order, stopping at the first that has the signature
    /// of a function already here; those added before it stay.
    pub fn combine(&mut self, other: Module) -> (r: Result<(), String>)
        requires
            old(self).wf(),
        ensures
            final(self).wf(),
            final(self).name_view() == old(self).name_view(),
            r is Ok <==> distinct_signatures(old(self).functions() + other.functions()),
            r is Ok ==> final(self).functions() == old(self).functions() + other.functions(),
            r matches Err(msg) ==> exists|k: int, i: int|
                0 <= k < other.functions().len() && 0 <= i < old(self).functions().len() + k
                    && final(self).functions() == old(self).functions() + other.functions().take(k)
                    && same_signature(#[trigger] final(self).functions()[i], #[trigger] other.functions()[k])
                    && msg@ == duplicate_text(old(self).name_view(), final(self).functions()[i], other.functions()[k]),
    {
        let ghost start = self.functions();
        let ghost orig = other.functions();
        let ghost total = orig.len();
        let mut rest = other.functions;
        let mut fs: Vec<FunctionPrototype> = Vec::new();
        while rest.len() > 0
            invariant
                total == orig.len(),
                rest@ == orig.take(rest@.len() as int),
                rest@.len() <= total,
                fs@.len() + rest@.len() == total,
                forall|k: int| 0 <= k < fs@.len() ==> #[trigger] fs@[k] == orig[total - 1 - k],
            decreases rest@.len(),
        {
            let ghost before = rest@;
            let ghost n = fs@.len();
            let f = rest.pop().unwrap();
            assert(rest@ =~= orig.take(rest@.len() as int)) by {
                assert(before =~= orig.take(before.len() as int));
            }
            assert(f == orig[total - 1 - n]) by {
                assert(before =~= orig.take(before.len() as int));
                assert(before[before.len() - 1] == orig[before.len() - 1]);
            }
            fs.push(f);
        }
        while fs.len() > 0
            invariant
                self.wf(),
                self.name_view() == old(self).name_view(),
                start == old(self).functions(),
                orig == other.functions(),
                total == orig.len(),
                fs@.len() <= total,
                self.functions() == start + orig.take(total - fs@.len()),
                distinct_signatures(start + orig.take(total - fs@.len())),
                forall|k: int| 0 <= k < fs@.len() ==> #[trigger] fs@[k] == orig[total - 1 - k],
            decreases fs@.len(),
        {
            let ghost t = total - fs@.len();
            let ghost here = self.functions();
            let f = fs.pop().unwrap();
            assert(f == orig[t]);
            match self.add_function(f) {
                Ok(()) => {
                    assert(self.functions() =~= start + orig.take(t + 1));
                },
                Err(msg) => {
                    proof {
                        let i = choose|i: int| 0 <= i < here.len() && same_signature(#[trigger] here[i], f)
                            && msg@ == duplicate_text(old(self).name_view(), here[i], f);
                        assert(same_signature(self.functions()[i], other.functions()[t]));
                        assert((start + orig)[i] == here[i]);
                        assert((start + orig)[start.len() + t] == f);
                        assert(!distinct_signatures(start + orig));
                    }
                    return Err(msg);
                },
            }
        }
        assert(orig.take(total as int) =~= orig);
        Ok(())
    }

    /// The number of functions.
    pub fn function_count(&self) -> (n: usize)
        ensures
            n == self.functions().len(),
    {
        self.functions.len()
    }

    /// Function `k`.
    pub fn function(&self, k: usize) -> (f: &FunctionPrototype)
        requires
            k < self.functions().len(),
        ensures
            *f == self.functions()[k as int],
    {
        &self.functions[k]
    }
}

} // verus!
