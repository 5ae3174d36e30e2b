//! Editor- and compiler-facing names of the public MCFC language surface.
use vstd::prelude::*;

use crate::text::str_eq;

verus! {

broadcast use vstd::string::group_string_axioms;

/// Agent events whose payload has a dedicated type, with that type.
pub open spec fn typed_payload(kind: Seq<char>) -> Option<Seq<char>> {
    if kind == "chat"@ {
        Some("chat_event"@)
    } else if kind == "inventory_click"@ {
        Some("inventory_click_event"@)
    } else if kind == "player_action"@ {
        Some("player_action_event"@)
    } else if kind == "block_break"@ {
        Some("block_break_event"@)
    } else if kind == "player_interact_block"@ {
        Some("player_interact_block_event"@)
    } else if kind == "player_interact_item"@ {
        Some("player_interact_item_event"@)
    } else if kind == "entity_interact"@ {
        Some("entity_interact_event"@)
    } else if kind == "entity_attack"@ {
        Some("entity_attack_event"@)
    } else if kind == "item_held_change"@ {
        Some("item_held_change_event"@)
    } else if kind == "inventory_close"@ {
        Some("inventory_close_event"@)
    } else if kind == "player_swing"@ {
        Some("player_swing_event"@)
    } else if kind == "player_action_toggle"@ {
        Some("player_action_toggle_event"@)
    } else if kind == "item_rename"@ {
        Some("item_rename_event"@)
    } else if kind == "trade_select"@ {
        Some("trade_select_event"@)
    } else if kind == "sign_change"@ {
        Some("sign_change_event"@)
    } else if kind == "recipe_place"@ {
        Some("recipe_place_event"@)
    } else if kind == "game_mode_request"@ {
        Some("game_mode_request_event"@)
    } else {
        None
    }
}

/// Agent events that carry the generic `agent_event` payload.
pub open spec fn generic_payload_event(kind: Seq<char>) -> bool {
    kind == "player_respawn_request"@ || kind == "book_edit"@ || kind == "beacon_effect"@ || kind
        == "item_pick"@ || kind == "entity_teleport"@ || kind == "player_abilities"@ || kind
        == "player_connect"@ || kind == "player_quit"@ || kind == "player_respawn"@ || kind
        == "player_damage"@ || kind == "player_teleport"@ || kind == "player_item_drop"@ || kind
        == "player_item_pickup"@ || kind == "inventory_open"@ || kind == "game_mode_change"@
}

/// The payload type of the agent event `kind`, if it is one.
pub open spec fn payload_type(kind: Seq<char>) -> Option<Seq<char>> {
    if typed_payload(kind) is Some {
        typed_payload(kind)
    } else if generic_payload_event(kind) {
        Some("agent_event"@)
    } else {
        None
    }
}

/// Whether `kind` names an event the agent can observe.
pub open spec fn is_agent_event(kind: Seq<char>) -> bool {
    payload_type(kind) is Some
}

/// Agent events that can be cancelled by a decider.
pub open spec fn is_cancellable_event(kind: Seq<char>) -> bool {
    (typed_payload(kind) is Some || kind == "player_respawn_request"@ || kind == "book_edit"@
        || kind == "beacon_effect"@ || kind == "item_pick"@ || kind == "entity_teleport"@ || kind
        == "player_abilities"@)
}

fn typed_payload_exec(kind: &str) -> (r: Option<&'static str>)
    ensures
        match r {
            Some(t) => typed_payload(kind@) == Some(t@),
            None => typed_payload(kind@) is None,
        },
{
    if str_eq(kind, "chat") {
        Some("chat_event")
    } else if str_eq(kind, "inventory_click") {
        Some("inventory_click_event")
    } else if str_eq(kind, "player_action") {
        Some("player_action_event")
    } else if str_eq(kind, "block_break") {
        Some("block_break_event")
    } else if str_eq(kind, "player_interact_block") {
        Some("player_interact_block_event")
    } else if str_eq(kind, "player_interact_item") {
        Some("player_interact_item_event")
    } else if str_eq(kind, "entity_interact") {
        Some("entity_interact_event")
    } else if str_eq(kind, "entity_attack") {
        Some("entity_attack_event")
    } else if str_eq(kind, "item_held_change") {
        Some("item_held_change_event")
    } else if str_eq(kind, "inventory_close") {
        Some("inventory_close_event")
    } else if str_eq(kind, "player_swing") {
        Some("player_swing_event")
    } else if str_eq(kind, "player_action_toggle") {
        Some("player_action_toggle_event")
    } else if str_eq(kind, "item_rename") {
        Some("item_rename_event")
    } else if str_eq(kind, "trade_select") {
        Some("trade_select_event")
    } else if str_eq(kind, "sign_change") {
        Some("sign_change_event")
    } else if str_eq(kind, "recipe_place") {
        Some("recipe_place_event")
    } else if str_eq(kind, "game_mode_request") {
        Some("game_mode_request_event")
    } else {
        None
    }
}

fn generic_payload_exec(kind: &str) -> (r: bool)
    ensures
        r == generic_payload_event(kind@),
{
    str_eq(kind, "player_respawn_request") || str_eq(kind, "book_edit") || str_eq(
        kind,
        "beacon_effect",
    ) || str_eq(kind, "item_pick") || str_eq(kind, "entity_teleport") || str_eq(
        kind,
        "player_abilities",
    ) || str_eq(kind, "player_connect") || str_eq(kind, "player_quit") || str_eq(
        kind,
        "player_respawn",
    ) || str_eq(kind, "player_damage") || str_eq(kind, "player_teleport") || str_eq(
        kind,
        "player_item_drop",
    ) || str_eq(kind, "player_item_pickup") || str_eq(kind, "inventory_open") || str_eq(
        kind,
        "game_mode_change",
    )
}

/// The payload type that an `event <kind>(name: <type>)` declaration must name.
pub fn agent_event_payload_type(kind: &str) -> (r: Option<&'static str>)
    ensures
        match r {
            Some(t) => payload_type(kind@) == Some(t@),
            None => payload_type(kind@) is None,
        },
{
    match typed_payload_exec(kind) {
        Some(t) => Some(t),
        None => {
            if generic_payload_exec(kind) {
                Some("agent_event")
            } else {
                None
            }
        },
    }
}

/// Whether `kind` is an agent event that a decider may cancel.
pub fn cancellable_event(kind: &str) -> (r: bool)
    ensures
        r == is_cancellable_event(kind@),
{
    typed_payload_exec(kind).is_some() || str_eq(kind, "player_respawn_request") || str_eq(
        kind,
        "book_edit",
    ) || str_eq(kind, "beacon_effect") || str_eq(kind, "item_pick") || str_eq(
        kind,
        "entity_teleport",
    ) || str_eq(kind, "player_abilities")
}

} // verus!
