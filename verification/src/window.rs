//! Description of a window to be created by a platform-specific backend.
use vstd::prelude::*;

verus! {

pub struct WindowBuilder {
    pub width: u32,
    pub height: u32,
    pub title: String,
}

impl WindowBuilder {
    /// A 300 x 300 window titled "Proto ECS".
    pub fn new() -> (b: Self)
        ensures
            b.width == 300,
            b.height == 300,
            b.title@ == "Proto ECS"@,
    {
        WindowBuilder { title: "Proto ECS".to_owned(), height: 300, width: 300 }
    }

    pub fn with_width(self, width: u32) -> (b: Self)
        ensures
            b.width == width,
            b.height == self.height,
            b.title == self.title,
    {
        let mut s = self;
        s.width = width;
        s
    }

    pub fn with_height(self, height: u32) -> (b: Self)
        ensures
            b.width == self.width,
            b.height == height,
            b.title == self.title,
    {
        let mut s = self;
        s.height = height;
        s
    }

    pub fn with_title(self, title: String) -> (b: Self)
        ensures
            b.width == self.width,
            b.height == self.height,
            b.title == title,
    {
        let mut s = self;
        s.title = title;
        s
    }
}

} // verus!
