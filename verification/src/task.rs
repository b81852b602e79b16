use vstd::prelude::*;
use vstd::string::StringExecFns;

verus! {

/// Mathematical value of one task: its name and whether it is checked off.
#[verifier::ext_equal]
pub ghost struct TaskView {
    pub name: Seq<char>,
    pub checked: bool,
}

/// One unit of work. Its name identifies it within its list; `checked`
/// records whether it is done and plays no part in identity.
#[derive(Debug)]
pub struct Task {
    pub name: String,
    pub checked: bool,
}

impl View for Task {
    type V = TaskView;

    open spec fn view(&self) -> TaskView {
        TaskView { name: self.name@, checked: self.checked }
    }
}

impl DeepView for Task {
    type V = TaskView;

    open spec fn deep_view(&self) -> TaskView {
        self@
    }
}

impl Task {
    /// The one-line rendering of a task: its done mark, then its name.
    pub fn label(&self) -> (r: String)
        ensures
            self.checked ==> r@ == "\u{2611} "@ + self.name@,
            !self.checked ==> r@ == "x "@ + self.name@,
    {
        let mut out: String = if self.checked {
            "\u{2611} ".to_owned()
        } else {
            "x ".to_owned()
        };
        out.append(self.name.as_str());
        out
    }
}

impl Clone for Task {
    fn clone(&self) -> (r: Self)
        ensures
            r@ == self@,
    {
        Task { name: self.name.clone(), checked: self.checked }
    }
}

} // verus!
