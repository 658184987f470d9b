//! The path of the page being shown, and the one shown before it.
use vstd::prelude::*;

verus! {

/// The path of the page being shown, and the one shown before the last navigation.
#[derive(Debug)]
pub struct Pathname {
    previous_path: Option<String>,
    pathname: String,
}

impl Pathname {
    /// The path shown at present.
    pub closed spec fn current(&self) -> Seq<char> {
        self.pathname@
    }

    /// The path shown before the last navigation, if there was one.
    pub closed spec fn previous(&self) -> Option<Seq<char>> {
        match self.previous_path {
            Some(p) => Some(p@),
            None => None,
        }
    }

    /// The path of the page shown first, with no navigation behind it.
    pub fn new(pathname: String) -> (r: Self)
        ensures
            r.current() == pathname@,
            r.previous() is None,
    {
        Pathname { previous_path: None, pathname }
    }

    /// The path shown at present.
    pub fn pathname(&self) -> (r: &str)
        ensures
            r@ == self.current(),
    {
        self.pathname.as_str()
    }

    /// Navigates to `new_pathname`: it is shown from now on, and the path shown until now
    /// becomes the previous one.
    pub fn update(&mut self, new_pathname: String)
        ensures
            final(self).current() == new_pathname@,
            final(self).previous() == Some(old(self).current()),
    {
        let mut new_pathname = new_pathname;
        std::mem::swap(&mut self.pathname, &mut new_pathname);
        self.previous_path = Some(new_pathname);
    }
}

} // verus!
