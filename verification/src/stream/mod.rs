mod draft;
mod event;

pub use draft::{
    DraftView, PartialBlock, StepDraft, assembled, assembly_fails, assembly_ok, draft_step,
    field_json, finish_refusal, lemma_accepted_event_keeps_closed_blocks,
    lemma_finished_draft_refuses, open_is_last, apply_all, lemma_delta_appends_fragment,
    lemma_signature_deltas_join, signature_fragments, signature_so_far,
};
pub use event::{BlockKind, StreamEvent};
