use vstd::prelude::*;
use vstd::string::StringExecFns;

pub mod geometry;
pub mod max_rect;

use crate::max_rect::{FreeRectChoiceHeuristic, MaxRectsBinPack, PackerView, Rect};

verus! {

/// What a sprite sheet is built from: the source directory or list of files, the
/// sheet's extent, the margin kept around each sprite, whether sprites may be turned,
/// and the output name.
pub struct SpriteSheetGenConfig {
    dir: String,
    width: u32,
    height: u32,
    padding: u32,
    is_rotation: bool,
    out_file: Option<String>,
    sprite_list: Vec<String>,
}

pub struct ConfigView {
    pub dir: Seq<char>,
    pub width: u32,
    pub height: u32,
    pub padding: u32,
    pub is_rotation: bool,
    pub out_file: Option<Seq<char>>,
    pub sprite_list: Seq<Seq<char>>,
}

pub open spec fn string_views(v: Seq<String>) -> Seq<Seq<char>> {
    v.map_values(|s: String| s@)
}

impl View for SpriteSheetGenConfig {
    type V = ConfigView;

    closed spec fn view(&self) -> ConfigView {
        ConfigView {
            dir: self.dir@,
            width: self.width,
            height: self.height,
            padding: self.padding,
            is_rotation: self.is_rotation,
            out_file: match self.out_file {
                Some(s) => Some(s@),
                None => None,
            },
            sprite_list: string_views(self.sprite_list@),
        }
    }
}

impl Default for SpriteSheetGenConfig {
    /// The current directory, a 1024 x 1024 sheet, a margin of 2, no turning, no output
    /// name and no file list.
    fn default() -> (r: Self)
        ensures
            r@ == (ConfigView {
                dir: "./"@,
                width: 1024,
                height: 1024,
                padding: 2,
                is_rotation: false,
                out_file: None,
                sprite_list: Seq::<Seq<char>>::empty(),
            }),
    {
        let r = SpriteSheetGenConfig {
            dir: String::from_str("./"),
            width: 1024,
            height: 1024,
            padding: 2,
            is_rotation: false,
            out_file: None,
            sprite_list: Vec::new(),
        };
        assert(r@.sprite_list =~= Seq::<Seq<char>>::empty());
        r
    }
}

impl SpriteSheetGenConfig {
    pub fn set_dir(&mut self, path: &str)
        ensures
            final(self)@ == (ConfigView { dir: path@, ..old(self)@ }),
    {
        self.dir = String::from_str(path);
    }

    pub fn set_size(&mut self, w: u32, h: u32)
        ensures
            final(self)@ == (ConfigView { width: w, height: h, ..old(self)@ }),
    {
        self.width = w;
        self.height = h;
    }

    pub fn set_is_rotation(&mut self, b: bool)
        ensures
            final(self)@ == (ConfigView { is_rotation: b, ..old(self)@ }),
    {
        self.is_rotation = b;
    }

    pub fn set_padding(&mut self, padding: u32)
        ensures
            final(self)@ == (ConfigView { padding: padding, ..old(self)@ }),
    {
        self.padding = padding;
    }

    pub fn set_width(&mut self, w: u32)
        ensures
            final(self)@ == (ConfigView { width: w, ..old(self)@ }),
    {
        self.width = w;
    }

    pub fn set_height(&mut self, h: u32)
        ensures
            final(self)@ == (ConfigView { height: h, ..old(self)@ }),
    {
        self.height = h;
    }

    pub fn set_out_file(&mut self, out_file: &str)
        ensures
            final(self)@ == (ConfigView { out_file: Some(out_file@), ..old(self)@ }),
    {
        self.out_file = Some(String::from_str(out_file));
    }

    pub fn set_sprite_list(&mut self, sprite_list: Vec<String>)
        ensures
            final(self)@ == (ConfigView { sprite_list: string_views(sprite_list@), ..old(self)@ }),
    {
        self.sprite_list = sprite_list;
    }

    pub fn dir(&self) -> (r: &String)
        ensures
            r@ == self@.dir,
    {
        &self.dir
    }

    pub fn width(&self) -> (r: u32)
        ensures
            r == self@.width,
    {
        self.width
    }

    pub fn height(&self) -> (r: u32)
        ensures
            r == self@.height,
    {
        self.height
    }

    pub fn padding(&self) -> (r: u32)
        ensures
            r == self@.padding,
    {
        self.padding
    }

    pub fn is_rotation(&self) -> (r: bool)
        ensures
            r == self@.is_rotation,
    {
        self.is_rotation
    }

    pub fn out_file(&self) -> (r: &Option<String>)
        ensures
            match *r {
                Some(s) => self@.out_file == Some(s@),
                None => self@.out_file is None,
            },
    {
        &self.out_file
    }

    /// The base name of the output files: the configured one, else the name of the
    /// source directory `dir_name`, else "default".
    pub fn out_name(&self, dir_name: Option<&str>) -> (r: String)
        ensures
            r@ == match self@.out_file {
                Some(name) => name,
                None => match dir_name {
                    Some(d) => d@,
                    None => "default"@,
                },
            },
    {
        match &self.out_file {
            Some(name) => name.clone(),
            None => match dir_name {
                Some(d) => String::from_str(d),
                None => String::from_str("default"),
            },
        }
    }

    pub fn sprite_list(&self) -> (r: &Vec<String>)
        ensures
            string_views(r@) == self@.sprite_list,
    {
        &self.sprite_list
    }
}

/// Where a sprite went on the sheet: its own pixels, inside the margin, and whether it
/// was turned a quarter.
#[derive(Debug, Clone, Copy, PartialEq, Eq, Structural)]
pub struct SpritePlacement {
    pub rect: Rect,
    pub rotated: bool,
}

/// A sprite's extent with a margin of `padding` on both sides.
pub open spec fn padded(size: u32, padding: u32) -> int {
    size + 2 * padding
}

/// The padded extent can be asked of the packer.
pub open spec fn padded_ok(w: u32, h: u32, padding: u32) -> bool {
    0 < padded(w, padding) <= i32::MAX && 0 < padded(h, padding) <= i32::MAX
}

/// What `place_sprite` reports for a packer in state `v`.
pub open spec fn sprite_outcome(v: PackerView, w: u32, h: u32, padding: u32) -> Option<SpritePlacement> {
    let pw = padded(w, padding) as i32;
    let ph = padded(h, padding) as i32;
    let p = v.placement(FreeRectChoiceHeuristic::BestAreaFit, pw, ph);
    if !padded_ok(w, h, padding) || p.height == 0 {
        None
    } else {
        Some(
            SpritePlacement {
                rect: Rect {
                    x: (p.x + padding) as i32,
                    y: (p.y + padding) as i32,
                    width: (p.width - 2 * padding) as i32,
                    height: (p.height - 2 * padding) as i32,
                },
                rotated: p.width != pw,
            },
        )
    }
}

/// Places a `w` x `h` sprite with a margin of `padding` around it, by the best area fit.
/// Returns the sprite's own rectangle and whether it was turned, or `None` where the
/// padded sprite does not fit or its extent is empty or beyond `i32`.
pub fn place_sprite(packer: &mut MaxRectsBinPack, w: u32, h: u32, padding: u32) -> (r: Option<
    SpritePlacement,
>)
    requires
        old(packer).wf(),
    ensures
        final(packer).wf(),
        r == sprite_outcome(old(packer)@, w, h, padding),
        padded_ok(w, h, padding) ==> final(packer)@ == old(packer)@.after_insert(
            FreeRectChoiceHeuristic::BestAreaFit,
            padded(w, padding) as i32,
            padded(h, padding) as i32,
        ),
        !padded_ok(w, h, padding) ==> final(packer)@ == old(packer)@,
{
    let pad = padding as u64;
    let pw = w as u64 + 2 * pad;
    let ph = h as u64 + 2 * pad;
    if pw == 0 || ph == 0 || pw > i32::MAX as u64 || ph > i32::MAX as u64 {
        return None;
    }
    let ghost v = packer@;
    let p = packer.insert(pw as i32, ph as i32, FreeRectChoiceHeuristic::BestAreaFit);
    if p.height == 0 {
        return None;
    }
    assert(packer@.used.last() == p);
    let pad = padding as i32;
    Some(
        SpritePlacement {
            rect: Rect { x: p.x + pad, y: p.y + pad, width: p.width - 2 * pad, height: p.height - 2 * pad },
            rotated: p.width != pw as i32,
        },
    )
}

} // verus!
