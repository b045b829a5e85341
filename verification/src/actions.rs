//! What the compositor does in answer to a fired binding and to a pointer
//! button.

use vstd::prelude::*;
use crate::text::str_eq;

verus! {

/// What a fired binding asks the compositor to do.
#[derive(Debug, Clone, Copy, PartialEq, Eq, Structural)]
pub enum CommandAction {
    /// Nothing.
    Ignore,
    /// Ask the topmost window to close, then retile.
    CloseWindow,
    /// Retile.
    Retile,
    /// Run the binding's command as a program (reporting on stderr when it
    /// cannot be started), then retile.
    Spawn,
}

/// What the compositor does with a pointer button event.
#[derive(Debug, Clone, Copy, PartialEq, Eq, Structural)]
pub enum ButtonAction {
    /// Raise the window under the pointer and give it the keyboard focus,
    /// then pass the event on to the pointer.
    Focus,
    /// Deactivate every window and clear the keyboard focus, then pass the
    /// event on to the pointer.
    ClearFocus,
    /// Only pass the event on to the pointer.
    Forward,
}

pub open spec fn spec_bind_to_cmd(func: Seq<char>, has_window: bool, win_count: nat) -> CommandAction {
    if !has_window {
        CommandAction::Ignore
    } else if func == "close_win"@ {
        if win_count == 0 {
            CommandAction::Ignore
        } else {
            CommandAction::CloseWindow
        }
    } else if func == "refresh"@ {
        CommandAction::Retile
    } else {
        CommandAction::Spawn
    }
}

/// The action for the command `func` of a fired binding: nothing when no
/// window is mapped; `close_win` closes the topmost window (when the window
/// order is not empty), `refresh` retiles, and any other command is run.
pub fn bind_to_cmd(func: &str, has_window: bool, win_count: usize) -> (r: CommandAction)
    ensures
        r == spec_bind_to_cmd(func@, has_window, win_count as nat),
{
    if !has_window {
        return CommandAction::Ignore;
    }
    if str_eq(func, "close_win") {
        if win_count == 0 {
            CommandAction::Ignore
        } else {
            CommandAction::CloseWindow
        }
    } else if str_eq(func, "refresh") {
        CommandAction::Retile
    } else {
        CommandAction::Spawn
    }
}

/// The action for a pointer button event: a press while no grab is active
/// focuses the window under the pointer, or clears the focus when there is
/// none; anything else is only passed on.
pub fn pointer_button_action(pressed: bool, grabbed: bool, window_under: bool) -> (r:
    ButtonAction)
    ensures
        r == (if pressed && !grabbed {
            if window_under {
                ButtonAction::Focus
            } else {
                ButtonAction::ClearFocus
            }
        } else {
            ButtonAction::Forward
        }),
{
    if pressed && !grabbed {
        if window_under {
            ButtonAction::Focus
        } else {
            ButtonAction::ClearFocus
        }
    } else {
        ButtonAction::Forward
    }
}


/// A fired `close_win` binding closes the topmost window whenever a window
/// is mapped and the window order is not empty; `refresh` retiles whenever
/// a window is mapped; any other command is run. Nothing happens exactly
/// when no window is mapped, or on `close_win` with an empty order.
pub proof fn lemma_command_actions(func: Seq<char>, has_window: bool, win_count: nat)
    ensures
        func == seq!['c', 'l', 'o', 's', 'e', '_', 'w', 'i', 'n'] && has_window && win_count >= 1
            ==> spec_bind_to_cmd(func, has_window, win_count) == CommandAction::CloseWindow,
        func == seq!['r', 'e', 'f', 'r', 'e', 's', 'h'] && has_window ==> spec_bind_to_cmd(
            func,
            has_window,
            win_count,
        ) == CommandAction::Retile,
        func != seq!['c', 'l', 'o', 's', 'e', '_', 'w', 'i', 'n'] && func != seq![
            'r',
            'e',
            'f',
            'r',
            'e',
            's',
            'h',
        ] && has_window ==> spec_bind_to_cmd(func, has_window, win_count)
            == CommandAction::Spawn,
        (spec_bind_to_cmd(func, has_window, win_count) == CommandAction::Ignore) <==> (!has_window
            || (func == seq!['c', 'l', 'o', 's', 'e', '_', 'w', 'i', 'n'] && win_count == 0)),
{
    reveal_strlit("close_win");
    reveal_strlit("refresh");
    assert("close_win"@ =~= seq!['c', 'l', 'o', 's', 'e', '_', 'w', 'i', 'n']);
    assert("refresh"@ =~= seq!['r', 'e', 'f', 'r', 'e', 's', 'h']);
}

} // verus!
