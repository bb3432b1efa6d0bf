//! The equivalence check of transpiled documents.
use crate::migrate::html_tree::{document, forest_text};
use crate::migrate::site_laws::{
    created_before, creates, law_references_are_created_first, law_text_is_preserved, op_texts,
    refers,
};
use crate::migrate::site_model::OpView;
use crate::migrate::transpile::{site_ops, DomOp, TranspiledSite};
use crate::strings::str_eq;
use vstd::prelude::*;

verus! {

/// Whether every append refers to elements that were created before it.
pub open spec fn appends_resolve(ops: Seq<OpView>) -> bool {
    forall|k: int|
        0 <= k < ops.len() ==> (#[trigger] ops[k] matches OpView::Append { parent, child } ==> {
            &&& created_before(ops, k, parent)
            &&& created_before(ops, k, child)
        })
}

/// Whether some operation sets a text.
pub open spec fn has_text_op(ops: Seq<OpView>) -> bool {
    exists|k: int| 0 <= k < ops.len() && #[trigger] ops[k] is Text
}

/// The equivalence invariant: appends resolve, and at least one text run was preserved.
pub open spec fn equivalent(ops: Seq<OpView>) -> bool {
    appends_resolve(ops) && has_text_op(ops)
}

/// Whether an operation before the one at `k` creates `var`.
fn is_created(ops: &Vec<DomOp>, k: usize, var: &String) -> (b: bool)
    requires
        k <= ops@.len(),
    ensures
        b == created_before(ops.deep_view(), k as int, var@),
{
    let ghost all = ops.deep_view();
    let mut j: usize = 0;
    while j < k
        invariant
            0 <= j <= k <= ops@.len(),
            all == ops.deep_view(),
            forall|i: int| 0 <= i < j ==> !creates(#[trigger] all[i], var@),
        decreases k - j,
    {
        assert(all[j as int] == ops@[j as int].deep_view());
        if let DomOp::Create { var: v, .. } = &ops[j] {
            if str_eq(v, var) {
                assert(creates(all[j as int], var@));
                return true;
            }
        }
        assert(!creates(all[j as int], var@));
        j = j + 1;
    }
    false
}

/// The equivalence invariant: every `append` references a previously created element, and at least
/// one text run was preserved.
pub fn validate_equivalence(site: &TranspiledSite) -> (b: bool)
    ensures
        b == equivalent(site.ops.deep_view()),
{
    let ghost all = site.ops.deep_view();
    let mut texts = false;
    let mut k: usize = 0;
    while k < site.ops.len()
        invariant
            0 <= k <= site.ops@.len(),
            all == site.ops.deep_view(),
            texts == (exists|i: int| 0 <= i < k && #[trigger] all[i] is Text),
            forall|i: int|
                0 <= i < k ==> (#[trigger] all[i] matches OpView::Append { parent, child } ==> {
                    &&& created_before(all, i, parent)
                    &&& created_before(all, i, child)
                }),
        decreases site.ops@.len() - k,
    {
        assert(all[k as int] == site.ops@[k as int].deep_view());
        match &site.ops[k] {
            DomOp::Text { .. } => {
                assert(all[k as int] is Text);
                texts = true;
            },
            DomOp::Append { parent, child } => {
                if !is_created(&site.ops, k, parent) || !is_created(&site.ops, k, child) {
                    assert(all[k as int] is Append);
                    return false;
                }
            },
            _ => {},
        }
        k = k + 1;
    }
    texts
}

proof fn lemma_texts_nonempty(ops: Seq<OpView>)
    ensures
        op_texts(ops).len() > 0 <==> has_text_op(ops),
    decreases ops.len(),
{
    if ops.len() > 0 {
        let front = ops.drop_last();
        lemma_texts_nonempty(front);
        if ops.last() is Text {
            assert(ops[ops.len() - 1] is Text);
        }
        if has_text_op(front) {
            let k = choose|k: int| 0 <= k < front.len() && #[trigger] front[k] is Text;
            assert(ops[k] is Text);
        }
        if has_text_op(ops) && !(ops.last() is Text) {
            let k = choose|k: int| 0 <= k < ops.len() && #[trigger] ops[k] is Text;
            assert(front[k] is Text);
        }
    }
}

/// Every document that holds text passes the equivalence check once it is transpiled, and no other
/// document does.
pub proof fn law_transpiled_documents_are_equivalent(html: Seq<char>)
    ensures
        equivalent(site_ops(html)) <==> forest_text(document(html)).len() > 0,
{
    let ops = site_ops(html);
    law_text_is_preserved(html);
    lemma_texts_nonempty(ops);
    assert(appends_resolve(ops)) by {
        assert forall|k: int| 0 <= k < ops.len() implies (
        #[trigger] ops[k] matches OpView::Append { parent, child } ==> {
            &&& created_before(ops, k, parent)
            &&& created_before(ops, k, child)
        }) by {
            if let OpView::Append { parent, child } = ops[k] {
                assert(refers(ops[k], parent));
                assert(refers(ops[k], child));
                law_references_are_created_first(html, k, parent);
                law_references_are_created_first(html, k, child);
            }
        }
    }
}

} // verus!
