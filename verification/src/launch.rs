//! What the program is started with.

use crate::text::{chars_of, same_text};
use vstd::prelude::*;

verus! {

/// What the program is asked to do at its start.
#[derive(Debug)]
pub struct Launch {
    /// The plugin to load.
    pub path: Option<String>,
    /// Whether its window is opened.
    pub open_gui: bool,
}

/// Whether an argument is an option and no path.
pub open spec fn is_option(argument: Seq<char>) -> bool {
    argument.len() >= 2 && argument[0] == '-' && argument[1] == '-'
}

/// The first argument that is a path.
pub open spec fn first_path(arguments: Seq<String>) -> Option<Seq<char>>
    decreases arguments.len(),
{
    if arguments.len() == 0 {
        None
    } else if !is_option(arguments.first()@) {
        Some(arguments.first()@)
    } else {
        first_path(arguments.drop_first())
    }
}

/// Whether the window is asked for.
pub open spec fn asks_for_window(arguments: Seq<String>) -> bool {
    exists|i: int| 0 <= i < arguments.len() && #[trigger] arguments[i]@ == "--open-gui"@
}

/// Reads the arguments that follow the program's name.
pub fn read_arguments(arguments: &Vec<String>) -> (launch: Launch)
    ensures
        launch.open_gui == asks_for_window(arguments@),
        match launch.path {
            Some(path) => first_path(arguments@) == Some(path@),
            None => first_path(arguments@) is None,
        },
{
    let mut path: Option<String> = None;
    let mut open_gui: bool = false;
    let count: usize = arguments.len();
    let mut at: usize = 0;
    assert(arguments@.skip(0) =~= arguments@);
    while at < count
        invariant
            count == arguments@.len(),
            at <= count,
            open_gui == asks_for_window(arguments@.take(at as int)),
            match path {
                Some(path) => first_path(arguments@) == Some(path@),
                None => first_path(arguments@) == first_path(arguments@.skip(at as int)),
            },
        decreases count - at,
    {
        let argument: &String = &arguments[at];
        let asked: bool = same_text(argument.as_str(), "--open-gui");
        proof {
            let before = arguments@.take(at as int);
            let after = arguments@.take(at + 1);
            assert forall|i: int| 0 <= i < at implies before[i] == #[trigger] after[i] by {}
            assert(after[at as int] == arguments@[at as int]);
            if asks_for_window(before) {
                let i = choose|i: int| 0 <= i < at && #[trigger] before[i]@ == "--open-gui"@;
                assert(after[i]@ == "--open-gui"@);
            }
        }
        if asked {
            open_gui = true;
        }
        let chars: Vec<char> = chars_of(argument.as_str());
        let option: bool = chars.len() >= 2 && chars[0] == '-' && chars[1] == '-';
        assert(arguments@.skip(at as int).drop_first() =~= arguments@.skip(at + 1));
        if path.is_none() && !option {
            path = Some(argument.clone());
        }
        at += 1;
    }
    assert(arguments@.take(count as int) =~= arguments@);
    Launch { path, open_gui }
}

/// The plugin to load is the first argument that does not begin with two
/// hyphens; there is none only if all arguments do.
pub proof fn the_first_path_counts(arguments: Seq<String>, at: int)
    requires
        0 <= at < arguments.len(),
        forall|i: int| 0 <= i < at ==> is_option((#[trigger] arguments[i])@),
    ensures
        !(arguments[at]@.len() >= 2 && arguments[at]@[0] == '-' && arguments[at]@[1] == '-')
            ==> first_path(arguments) == Some(arguments[at]@),
        at == arguments.len() - 1 && is_option(arguments[at]@) ==> first_path(arguments) is None,
    decreases at,
{
    if at > 0 {
        assert(is_option(arguments[0]@));
        let rest = arguments.drop_first();
        assert forall|i: int| 0 <= i < at - 1 implies is_option((#[trigger] rest[i])@) by {
            assert(is_option(arguments[i + 1]@));
        }
        the_first_path_counts(rest, at - 1);
    } else if arguments.len() == 1 && is_option(arguments[0]@) {
        assert(first_path(arguments.drop_first()) is None);
    }
}

/// The window is opened if one of the arguments asks for it, wherever it stands.
pub proof fn the_window_is_opened_on_request(arguments: Seq<String>, at: int)
    requires
        0 <= at < arguments.len(),
    ensures
        arguments[at]@ == "--open-gui"@ ==> asks_for_window(arguments),
        (forall|i: int| 0 <= i < arguments.len() ==> (#[trigger] arguments[i])@ != "--open-gui"@)
            ==> !asks_for_window(arguments),
{
}

} // verus!
