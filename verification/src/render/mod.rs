mod engine;

pub use engine::{
    lemma_merge_keeps_block_order, lemma_merge_keeps_other_messages,
    lemma_own_turn_one_message_per_item, lemma_relay_one_text_per_entry,
    lemma_relayed_images_appended, lemma_results_first_keeps_order, user_blocks,
    lemma_render_shape, lemma_render_waits_for_results, no_adjacent_users, render, render_spec,
    results_lead, user_results_lead,
};
mod frame;
mod wire;

pub use frame::{
    escape_attr, escape_attr_string, escape_text, escape_text_string, frame, frame_text,
    lemma_escaped_attr_has_no_markup, lemma_escaped_attr_reads_back,
    lemma_escaped_text_has_no_markup, lemma_escaped_text_reads_back, reference_at, unescape,
    is_shown, lemma_agent_parts_in_order, lemma_step_parts_shown, lemma_user_images_in_order,
    lemma_user_texts_in_order, shown_text,
};
pub use wire::{Perspective, WireBlockSpec, WireMessage, WireSpec, WireUserBlock};
