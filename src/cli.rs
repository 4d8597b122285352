//! A numbered menu of options.
use vstd::prelude::*;

verus! {

/// The options of a menu, shown numbered from one.
pub struct Cli {
    menu_options: Vec<String>,
}

impl View for Cli {
    type V = Seq<Seq<char>>;

    closed spec fn view(&self) -> Seq<Seq<char>> {
        self.menu_options@.map_values(|o: String| o@)
    }
}

impl Cli {
    /// A menu of the given options, in order.
    pub fn new(menu_options: Vec<String>) -> (r: Self)
        ensures
            r@ == menu_options@.map_values(|o: String| o@),
    {
        Cli { menu_options }
    }

    /// The options, in order.
    pub fn options(&self) -> (r: &[String])
        ensures
            r@.map_values(|o: String| o@) == self@,
    {
        self.menu_options.as_slice()
    }

    /// The option that the one-based menu number `choice` picks, if any.
    pub fn option_for(&self, choice: u8) -> (r: Option<&String>)
        ensures
            1 <= choice <= self@.len() ==> (r matches Some(o) && o@ == self@[choice - 1]),
            !(1 <= choice <= self@.len()) ==> r is None,
    {
        if choice >= 1 && (choice as usize) <= self.menu_options.len() {
            Some(&self.menu_options[choice as usize - 1])
        } else {
            None
        }
    }
}

} // verus!
