use vstd::prelude::*;

use crate::engine::IR;

verus! {

#[verifier::external_type_specification]
#[verifier::external_body]
#[verifier::reject_recursive_types(R)]
pub struct ExWare<R>(ware::Ware<R>);

/// How many stages a pipeline holds.
pub uninterp spec fn stage_count(w: ware::Ware<IR>) -> nat;

/// Relies on ware::Ware::new: a pipeline with no stage.
#[verifier::external_body]
pub(crate) fn pipeline_new() -> (r: ware::Ware<IR>)
    ensures
        stage_count(r) == 0,
{
    ware::Ware::new()
}

/// Relies on ware::Ware::wrap: the stage goes after all the others.
#[verifier::external_body]
pub(crate) fn pipeline_wrap<F: Fn(IR) -> IR + 'static>(w: &mut ware::Ware<IR>, func: F)
    ensures
        stage_count(*final(w)) == stage_count(*old(w)) + 1,
{
    w.wrap(Box::new(func))
}

/// Relies on ware::Ware::run: the stages are applied in turn, each to what
/// the one before returned; with no stage the argument comes back.
#[verifier::external_body]
pub(crate) fn pipeline_run(w: &ware::Ware<IR>, arg: IR) -> (r: IR)
    ensures
        stage_count(*w) == 0 ==> r == arg,
{
    w.run(arg)
}

} // verus!
