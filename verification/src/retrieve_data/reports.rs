//! What is reported when the data that came is of no use.

use crate::text::{contains, contains_text};
use vstd::prelude::*;

verus! {

/// How the program goes on without data.
#[derive(Clone, Copy, Debug, PartialEq, Eq, Structural)]
pub enum WithoutData {
    /// It ends with an exit code of one.
    Exit,
    /// The fetch fails with the message "Data fetch failed".
    Fail,
}

/// What becomes of data that was fetched.
#[derive(Debug)]
pub enum DataVerdict {
    /// The data can be used.
    Usable,
    /// There is nothing in the data. The messages are for the console and for the window.
    Empty { console: String, window: String, then: WithoutData },
}

/// A remark tells that a server ran out of memory.
pub open spec fn tells_of_memory(remark: Seq<char>) -> bool {
    contains_text(remark, "runtime error"@) && contains_text(remark, "out of memory"@)
}

/// What the window says about data with nothing in it.
pub open spec fn window_message(remark: Option<Seq<char>>) -> Seq<char> {
    match remark {
        Some(remark) => if tells_of_memory(remark) {
            "Try using a smaller area."@
        } else {
            "API returned: "@ + remark
        },
        None => "API returned no data. Please try again!"@,
    }
}

/// What the console says about data with nothing in it.
pub open spec fn console_message(remark: Option<Seq<char>>) -> Seq<char> {
    match remark {
        Some(remark) => if tells_of_memory(remark) {
            "Error! The query ran out of memory on the Overpass API server. Try using a smaller area."@
        } else {
            "Error! API returned: "@ + remark
        },
        None => "Error! API returned no data. Please try again!"@,
    }
}

/// Decides whether data can be used, and what is said where it cannot.
pub fn judge_data(is_empty: bool, remark: Option<&str>, running_with_gui: bool) -> (verdict:
    DataVerdict)
    ensures
        match verdict {
            DataVerdict::Usable => !is_empty,
            DataVerdict::Empty { console, window, then } => {
                let remarked = match remark {
                    Some(remark) => Some(remark@),
                    None => None,
                };
                &&& is_empty
                &&& console@ == console_message(remarked)
                &&& window@ == window_message(remarked)
                &&& then == if running_with_gui {
                    WithoutData::Fail
                } else {
                    WithoutData::Exit
                }
            },
        },
{
    if !is_empty {
        return DataVerdict::Usable;
    }
    let (console, window): (String, String) = match remark {
        Some(remark) => if contains(remark, "runtime error") && contains(remark, "out of memory") {
            (
                "Error! The query ran out of memory on the Overpass API server. Try using a smaller area.".to_string(),
                "Try using a smaller area.".to_string(),
            )
        } else {
            let mut console = "Error! API returned: ".to_string();
            console.append(remark);
            let mut window = "API returned: ".to_string();
            window.append(remark);
            (console, window)
        },
        None => (
            "Error! API returned no data. Please try again!".to_string(),
            "API returned no data. Please try again!".to_string(),
        ),
    };
    let then = if running_with_gui {
        WithoutData::Fail
    } else {
        WithoutData::Exit
    };
    DataVerdict::Empty { console, window, then }
}

/// What is said of data with nothing in it: a remark is passed on as it is, unless it speaks
/// both of a runtime error and of memory; then a smaller area is advised.
pub proof fn law_messages_without_data(remark: Seq<char>)
    ensures
        ({
            let memory = contains_text(remark, "runtime error"@) && contains_text(
                remark,
                "out of memory"@,
            );
            &&& memory ==> window_message(Some(remark)) == "Try using a smaller area."@
            &&& memory ==> console_message(Some(remark))
                == "Error! The query ran out of memory on the Overpass API server. Try using a smaller area."@
            &&& !memory ==> window_message(Some(remark)) == "API returned: "@ + remark
            &&& !memory ==> console_message(Some(remark)) == "Error! API returned: "@ + remark
        }),
        window_message(None) == "API returned no data. Please try again!"@,
        console_message(None) == "Error! API returned no data. Please try again!"@,
{
}

} // verus!
