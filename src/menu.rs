use vstd::prelude::*;

verus! {

/// One entry of a menu: a nested menu, or an action handed back to the caller.
pub enum MenuEntry<A> {
    SubMenu(Menu<A>),
    Function(A),
}

/// A titled list of labelled entries, with a label for leaving the menu.
pub struct Menu<A> {
    pub title_txt: String,
    pub back_txt: String,
    pub entries: Vec<(String, MenuEntry<A>)>,
    /// Whether the menu is left as soon as a nested menu has been left.
    pub auto_back: bool,
}

/// What a number typed at a menu's prompt asks for.
#[derive(PartialEq, Eq, Structural, Clone, Copy, Debug)]
pub enum Selection {
    /// Leave the menu.
    Back,
    /// No such entry: show the menu again.
    Ignore,
    /// Run the entry with this 1-based number.
    Entry(usize),
}

/// What running an entry amounts to.
pub enum EntryStep<'a, A> {
    /// Run the nested menu; afterwards the outer menu is left if the flag is set.
    Enter(&'a Menu<A>, bool),
    /// Call the action; whatever it returns decides whether the menu is left.
    Call(&'a A),
}

/// Copies the labels into owned strings, keeping entries and their order.
fn collect_entries<A>(entries: Vec<(&str, MenuEntry<A>)>) -> (r: Vec<(String, MenuEntry<A>)>)
    ensures
        r@.len() == entries@.len(),
        forall|i: int|
            0 <= i < r@.len() ==> #[trigger] r@[i].0@ == entries@[i].0@ && r@[i].1
                == entries@[i].1,
{
    let mut out: Vec<(String, MenuEntry<A>)> = Vec::new();
    let ghost orig = entries@;
    for pair in it: entries
        invariant
            it.seq() == orig,
            out@.len() == it.index(),
            forall|i: int|
                0 <= i < out@.len() ==> #[trigger] out@[i].0@ == orig[i].0@ && out@[i].1
                    == orig[i].1,
    {
        let (id, entry) = pair;
        out.push((id.to_owned(), entry));
    }
    out
}

/// A nested menu that is left as soon as one of its entries has run.
pub fn m<A>(title: &str, back: &str, entries: Vec<(&str, MenuEntry<A>)>) -> (r: Menu<A>)
    ensures
        r.title_txt@ == title@,
        r.back_txt@ == back@,
        r.auto_back,
        r.entries@.len() == entries@.len(),
        forall|i: int|
            0 <= i < r.entries@.len() ==> #[trigger] r.entries@[i].0@ == entries@[i].0@
                && r.entries@[i].1 == entries@[i].1,
{
    Menu {
        title_txt: title.to_owned(),
        back_txt: back.to_owned(),
        entries: collect_entries(entries),
        auto_back: true,
    }
}

/// A main menu: it stays until its back entry is chosen.
pub fn mm<A>(title: &str, back: &str, entries: Vec<(&str, MenuEntry<A>)>) -> (r: Menu<A>)
    ensures
        r.title_txt@ == title@,
        r.back_txt@ == back@,
        !r.auto_back,
        r.entries@.len() == entries@.len(),
        forall|i: int|
            0 <= i < r.entries@.len() ==> #[trigger] r.entries@[i].0@ == entries@[i].0@
                && r.entries@[i].1 == entries@[i].1,
{
    Menu {
        title_txt: title.to_owned(),
        back_txt: back.to_owned(),
        entries: collect_entries(entries),
        auto_back: false,
    }
}

/// An entry that opens `menu`.
pub fn sub_menu<A>(menu: Menu<A>) -> (r: MenuEntry<A>)
    ensures
        r == MenuEntry::SubMenu(menu),
{
    MenuEntry::SubMenu(menu)
}

/// An entry that runs `func`.
pub fn m_call<A>(func: A) -> (r: MenuEntry<A>)
    ensures
        r == MenuEntry::Function(func),
{
    MenuEntry::Function(func)
}

impl<A> Menu<A> {
    /// The meaning of `choice` typed at this menu: 0 leaves, a number past the
    /// last entry is ignored, any other names an entry.
    pub fn select(&self, choice: usize) -> (r: Selection)
        ensures
            choice == 0 ==> r == Selection::Back,
            choice > self.entries@.len() ==> r == Selection::Ignore,
            1 <= choice <= self.entries@.len() ==> r == Selection::Entry(choice),
    {
        if choice > self.entries.len() {
            Selection::Ignore
        } else if choice == 0 {
            Selection::Back
        } else {
            Selection::Entry(choice)
        }
    }

    /// What running entry number `i` (1-based) means.
    pub fn run_entry(&self, i: usize) -> (r: EntryStep<'_, A>)
        requires
            1 <= i <= self.entries@.len(),
        ensures
            match self.entries@[i - 1].1 {
                MenuEntry::SubMenu(sub) => r matches EntryStep::Enter(s, back) && *s == sub
                    && back == self.auto_back,
                MenuEntry::Function(f) => r matches EntryStep::Call(g) && *g == f,
            },
    {
        match &self.entries[i - 1].1 {
            MenuEntry::SubMenu(menu) => EntryStep::Enter(menu, self.auto_back),
            MenuEntry::Function(func) => EntryStep::Call(func),
        }
    }
}

} // verus!
