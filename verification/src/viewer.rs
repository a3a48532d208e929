//! The decisions of the viewer's window that do not depend on drawing: which
//! files are loading, and which plot layout is shown.
use vstd::prelude::*;

verus! {

/// What the viewer is doing with files: nothing (`Idle`), loading `paths`, or
/// showing the data of `paths`.
#[derive(Debug)]
pub enum FileOperation<P> {
    Idle,
    Loading(Vec<P>),
    Loaded(Vec<P>),
}

impl<P> FileOperation<P> {
    /// Whether files are loading.
    pub fn is_loading(&self) -> (b: bool)
        ensures
            b == (*self is Loading),
    {
        match self {
            FileOperation::Loading(_) => true,
            _ => false,
        }
    }

    /// Starts loading `paths`, unless files are loading already; says whether
    /// it started.
    pub fn start(&mut self, paths: Vec<P>) -> (started: bool)
        ensures
            started == !(*old(self) is Loading),
            started ==> *final(self) == FileOperation::Loading(paths),
            !started ==> *final(self) == *old(self),
    {
        if self.is_loading() {
            false
        } else {
            *self = FileOperation::Loading(paths);
            true
        }
    }

    /// Records that the files that were loading are loaded.
    pub fn finish(&mut self)
        ensures
            match *old(self) {
                FileOperation::Loading(p) => *final(self) == FileOperation::Loaded(p),
                _ => *final(self) == *old(self),
            },
    {
        let mut op = FileOperation::Idle;
        std::mem::swap(&mut op, self);
        *self = match op {
            FileOperation::Loading(paths) => FileOperation::Loaded(paths),
            other => other,
        };
    }
}

/// The name of the layout the viewer adds when it has none.
pub open spec fn default_layout() -> Seq<char> {
    "Default"@
}

/// Whether `name` is one of `names`.
pub open spec fn has_name(names: Seq<String>, name: Seq<char>) -> bool {
    exists|i: int| 0 <= i < names.len() && names[i]@ == name
}

/// Keeps the layouts usable: with no layout, one named `Default` is to be
/// added (the first result); the layout shown (the second result) is `active`
/// where a layout has that name, else the first of `names`, which are the
/// layout names in order.
pub fn settle_layout(names: &[String], active: &str) -> (r: (bool, String))
    ensures
        r.0 == (names@.len() == 0),
        names@.len() == 0 ==> r.1@ == default_layout(),
        names@.len() > 0 ==> r.1@ == if has_name(names@, active@) { active@ } else { names@[0]@ },
{
    if names.len() == 0 {
        proof {
            reveal_strlit("Default");
        }
        return (true, "Default".to_owned());
    }
    let wanted = active.to_owned();
    let mut i: usize = 0;
    while i < names.len()
        invariant
            0 <= i <= names@.len(),
            wanted@ == active@,
            forall|j: int| 0 <= j < i ==> names@[j]@ != active@,
        decreases names@.len() - i,
    {
        if names[i] == wanted {
            return (false, wanted);
        }
        i += 1;
    }
    (false, names[0].clone())
}

/// What the layout menu reports in a frame: a layout to remove, a layout
/// chosen, or the name typed for a new layout, to create empty or as a copy of
/// the layout shown.
#[derive(Debug)]
pub enum LayoutEvent {
    Remove(String),
    Select(String),
    Create(String),
    Copy(String),
}

/// What a layout to add starts as.
#[derive(Debug, PartialEq, Eq)]
pub enum LayoutSource {
    Empty,
    CopyOf(String),
}

/// What to do with the layouts after an event: remove one, add one (from
/// nothing or as a copy of another), and which layout to show.
#[derive(Debug)]
pub struct LayoutAction {
    pub remove: Option<String>,
    pub add: Option<(String, LayoutSource)>,
    pub active: String,
}

fn contains_name(names: &[String], name: &String) -> (b: bool)
    ensures
        b == has_name(names@, name@),
{
    let mut i: usize = 0;
    while i < names.len()
        invariant
            0 <= i <= names@.len(),
            forall|j: int| 0 <= j < i ==> names@[j]@ != name@,
        decreases names@.len() - i,
    {
        if names[i] == *name {
            return true;
        }
        i += 1;
    }
    false
}

/// The decision of the layout menu for one event, given the layout names and
/// the layout shown: a removal removes; a choice shows that layout; a new
/// name (not empty) is added, empty or as a copy of the layout shown, unless a
/// layout has that name already, and is shown; an empty name does nothing.
pub fn layout_step(names: &[String], active: &str, event: LayoutEvent) -> (r: LayoutAction)
    ensures
        match event {
            LayoutEvent::Remove(n) => r.remove == Some(n) && r.add is None && r.active@ == active@,
            LayoutEvent::Select(n) => r.remove is None && r.add is None && r.active@ == n@,
            LayoutEvent::Create(n) => r.remove is None && if n@.len() == 0 {
                r.add is None && r.active@ == active@
            } else {
                r.active@ == n@ && if has_name(names@, n@) {
                    r.add is None
                } else {
                    r.add matches Some((m, s)) && m@ == n@ && s == LayoutSource::Empty
                }
            },
            LayoutEvent::Copy(n) => r.remove is None && if n@.len() == 0 {
                r.add is None && r.active@ == active@
            } else {
                r.active@ == n@ && if has_name(names@, n@) {
                    r.add is None
                } else {
                    r.add matches Some((m, LayoutSource::CopyOf(a))) && m@ == n@ && a@ == active@
                }
            },
        },
{
    match event {
        LayoutEvent::Remove(n) => LayoutAction { remove: Some(n), add: None, active: active.to_owned() },
        LayoutEvent::Select(n) => LayoutAction { remove: None, add: None, active: n },
        LayoutEvent::Create(n) => {
            if n.as_str().is_empty() {
                LayoutAction { remove: None, add: None, active: active.to_owned() }
            } else if contains_name(names, &n) {
                LayoutAction { remove: None, add: None, active: n }
            } else {
                let name = n.clone();
                LayoutAction { remove: None, add: Some((name, LayoutSource::Empty)), active: n }
            }
        },
        LayoutEvent::Copy(n) => {
            if n.as_str().is_empty() {
                LayoutAction { remove: None, add: None, active: active.to_owned() }
            } else if contains_name(names, &n) {
                LayoutAction { remove: None, add: None, active: n }
            } else {
                let name = n.clone();
                LayoutAction { remove: None, add: Some((name, LayoutSource::CopyOf(active.to_owned()))), active: n }
            }
        },
    }
}

} // verus!
