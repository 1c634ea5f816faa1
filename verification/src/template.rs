//! Widget templates: what a widget instance renders and where.
//!
//! The fractional model settings (scale, lighting, speeds) are read and
//! bounded by the program around this library; these types hold what the
//! layout and file logic read.
use vstd::prelude::*;
use crate::text::{
    ascii_lower, ascii_lowercase, chars_of, trim, trim_chars, eq_ignore_ascii_case, eq_ignore_ascii_case_chars,
};
use crate::path::{join, join_path};

verus! {

broadcast use vstd::string::group_string_axioms;

/// How textures are sampled.
#[derive(Debug, Clone, Copy, PartialEq, Eq, Structural)]
pub enum TextureFilterChoice {
    Nearest,
    Bilinear,
}

/// Where the information column sits across the content area.
#[derive(Debug, Clone, Copy, PartialEq, Eq, Structural)]
pub enum HorizontalPosition {
    Left,
    Center,
    Right,
}

/// How the lines of the information column are aligned.
#[derive(Debug, Clone, Copy, PartialEq, Eq, Structural)]
pub enum HorizontalAlignment {
    Left,
    Center,
    Right,
}

/// Where the information block sits vertically.
#[derive(Debug, Clone, Copy, PartialEq, Eq, Structural)]
pub enum VerticalAlignment {
    Top,
    Center,
    Bottom,
}

impl TextureFilterChoice {
    pub fn default() -> (r: Self)
        ensures
            r == TextureFilterChoice::Nearest,
    {
        TextureFilterChoice::Nearest
    }
}

impl HorizontalPosition {
    pub fn default() -> (r: Self)
        ensures
            r == HorizontalPosition::Center,
    {
        HorizontalPosition::Center
    }
}

impl HorizontalAlignment {
    pub fn default() -> (r: Self)
        ensures
            r == HorizontalAlignment::Center,
    {
        HorizontalAlignment::Center
    }
}

impl VerticalAlignment {
    pub fn default() -> (r: Self)
        ensures
            r == VerticalAlignment::Center,
    {
        VerticalAlignment::Center
    }
}

/// The system-information settings of a template.
pub struct SystemTemplate {
    pub enabled: bool,
    pub width_percent: u16,
    pub horizontal_position: HorizontalPosition,
    pub horizontal_alignment: HorizontalAlignment,
    pub vertical_alignment: VerticalAlignment,
    /// The sections to show; all of them when empty.
    pub sections: Vec<String>,
}

impl SystemTemplate {
    /// Enabled, seventy percent wide, centred, every section.
    pub fn default() -> (r: Self)
        ensures
            r.enabled,
            r.width_percent == 70,
            r.horizontal_position == HorizontalPosition::Center,
            r.horizontal_alignment == HorizontalAlignment::Center,
            r.vertical_alignment == VerticalAlignment::Center,
            r.sections@.len() == 0,
    {
        SystemTemplate {
            enabled: true,
            width_percent: 70,
            horizontal_position: HorizontalPosition::Center,
            horizontal_alignment: HorizontalAlignment::Center,
            vertical_alignment: VerticalAlignment::Center,
            sections: Vec::new(),
        }
    }
}

/// The model settings that are not fractional.
pub struct ModelTemplate {
    pub enabled: bool,
    pub asset: String,
    pub flip_horizontal: bool,
    pub texture_filter: TextureFilterChoice,
    pub texture_lighting: bool,
    pub backface_culling: bool,
    pub animation_index: usize,
}

impl ModelTemplate {
    /// Disabled, no asset, nearest filtering, lit textures, culled back faces.
    pub fn default() -> (r: Self)
        ensures
            !r.enabled,
            r.asset@.len() == 0,
            !r.flip_horizontal,
            r.texture_filter == TextureFilterChoice::Nearest,
            r.texture_lighting,
            r.backface_culling,
            r.animation_index == 0,
    {
        ModelTemplate {
            enabled: false,
            asset: String::new(),
            flip_horizontal: false,
            texture_filter: TextureFilterChoice::Nearest,
            texture_lighting: true,
            backface_culling: true,
            animation_index: 0,
        }
    }
}

/// A widget template.
pub struct WidgetTemplate {
    pub name: String,
    pub description: String,
    /// Empty rows above and below the content.
    pub outer_margin: u16,
    pub model: ModelTemplate,
    pub system: SystemTemplate,
}

/// Whether a template shows a section: every section when none are listed,
/// otherwise those listed, compared without regard to ASCII case.
pub open spec fn includes_section_spec(sections: Seq<String>, section: Seq<char>) -> bool {
    sections.len() == 0 || exists|i: int|
        0 <= i < sections.len() && eq_ignore_ascii_case(#[trigger] sections[i]@, section)
}

/// The sections kept by normalising: those that are not blank, in order.
pub open spec fn nonblank_sections(sections: Seq<String>) -> Seq<Seq<char>>
    decreases sections.len(),
{
    if sections.len() == 0 {
        Seq::empty()
    } else {
        let rest = nonblank_sections(sections.drop_last());
        if trim(sections.last()@).len() == 0 {
            rest
        } else {
            rest.push(sections.last()@)
        }
    }
}

/// The path of the model a template shows.
pub open spec fn model_path_spec(
    enabled: bool,
    asset: Seq<char>,
    override_path: Option<Seq<char>>,
    asset_directory: Seq<char>,
) -> Option<Seq<char>> {
    if !enabled {
        None
    } else if override_path is Some && override_path->0.len() > 0 {
        override_path
    } else if asset.len() == 0 {
        None
    } else if asset[0] == '/' {
        Some(asset)
    } else {
        Some(join_path(asset_directory, asset))
    }
}

impl WidgetTemplate {
    /// The built-in template: system information only.
    pub fn default() -> (r: Self)
        ensures
            r.name@ == "System information"@,
            r.description@.len() == 0,
            r.outer_margin == 2,
            !r.model.enabled,
            r.model.asset@.len() == 0,
            r.system.enabled,
            r.system.width_percent == 70,
            r.system.sections@.len() == 0,
    {
        WidgetTemplate {
            name: String::from_str("System information"),
            description: String::new(),
            outer_margin: 2,
            model: ModelTemplate::default(),
            system: SystemTemplate::default(),
        }
    }

    /// Whether the information column shows a section.
    pub fn includes_section(&self, section: &str) -> (r: bool)
        ensures
            r == includes_section_spec(self.system.sections@, section@),
    {
        if self.system.sections.len() == 0 {
            return true;
        }
        let wanted = chars_of(section);
        let mut i: usize = 0;
        while i < self.system.sections.len()
            invariant
                i <= self.system.sections@.len(),
                wanted@ == section@,
                forall|k: int|
                    0 <= k < i ==> !eq_ignore_ascii_case(
                        #[trigger] self.system.sections@[k]@,
                        section@,
                    ),
            decreases self.system.sections.len() - i,
        {
            let candidate = chars_of(self.system.sections[i].as_str());
            if eq_ignore_ascii_case_chars(candidate.as_slice(), wanted.as_slice()) {
                return true;
            }
            i = i + 1;
        }
        false
    }

    /// The model file: none when the model is disabled; the override when one
    /// is given; none without an asset; an absolute asset as it is; otherwise
    /// the asset inside `asset_directory`.
    pub fn model_path(&self, override_path: Option<&str>, asset_directory: &str) -> (r: Option<
        String,
    >)
        ensures
            ({
                let o = match override_path {
                    Some(p) => Some(p@),
                    None => None,
                };
                match r {
                    Some(p) => model_path_spec(
                        self.model.enabled,
                        self.model.asset@,
                        o,
                        asset_directory@,
                    ) == Some(p@),
                    None => model_path_spec(
                        self.model.enabled,
                        self.model.asset@,
                        o,
                        asset_directory@,
                    ) is None,
                }
            }),
    {
        if !self.model.enabled {
            return None;
        }
        match override_path {
            Some(p) => {
                if !p.is_empty() {
                    return Some(String::from_str(p));
                }
            },
            None => {},
        }
        let asset = chars_of(self.model.asset.as_str());
        if asset.len() == 0 {
            return None;
        }
        if asset[0] == '/' {
            return Some(self.model.asset.clone());
        }
        Some(join(asset_directory, self.model.asset.as_str()))
    }

    /// Bounds the whole-number settings: at most twenty rows of margin, a
    /// column ten to a hundred percent wide, and no blank sections.
    pub fn normalize(&mut self)
        ensures
            final(self).outer_margin == (if old(self).outer_margin < 20 {
                old(self).outer_margin
            } else {
                20
            }),
            final(self).system.width_percent == (if old(self).system.width_percent < 10 {
                10
            } else if old(self).system.width_percent > 100 {
                100
            } else {
                old(self).system.width_percent
            }),
            final(self).system.sections@.map_values(|s: String| s@) == nonblank_sections(
                old(self).system.sections@,
            ),
            final(self).system.enabled == old(self).system.enabled,
            final(self).system.horizontal_position == old(self).system.horizontal_position,
            final(self).system.horizontal_alignment == old(self).system.horizontal_alignment,
            final(self).system.vertical_alignment == old(self).system.vertical_alignment,
            final(self).model == old(self).model,
            final(self).name == old(self).name,
            final(self).description == old(self).description,
    {
        if self.outer_margin > 20 {
            self.outer_margin = 20;
        }
        if self.system.width_percent < 10 {
            self.system.width_percent = 10;
        } else if self.system.width_percent > 100 {
            self.system.width_percent = 100;
        }
        let mut kept: Vec<String> = Vec::new();
        let mut old_sections: Vec<String> = Vec::new();
        std::mem::swap(&mut old_sections, &mut self.system.sections);
        let ghost given = old_sections@;
        let n = old_sections.len();
        let mut i: usize = 0;
        while i < n
            invariant
                i <= n == given.len(),
                old_sections@ == given,
                kept@.map_values(|s: String| s@) == nonblank_sections(given.take(i as int)),
            decreases n - i,
        {
            let s = &old_sections[i];
            let cs = chars_of(s.as_str());
            let t = trim_chars(cs.as_slice());
            proof {
                assert(given.take(i + 1).drop_last() =~= given.take(i as int));
                assert(given.take(i + 1).last() == given[i as int]);
            }
            if t.len() > 0 {
                let ghost before = kept@;
                kept.push(s.clone());
                assert(kept@.map_values(|s: String| s@) =~= before.map_values(|s: String| s@).push(
                    given[i as int]@,
                ));
            }
            i = i + 1;
        }
        assert(given.take(n as int) =~= given);
        self.system.sections = kept;
    }
}

/// Whether `a` and `b` differ at most in the ASCII case of their letters.
pub open spec fn same_ignoring_case(a: Seq<char>, b: Seq<char>) -> bool {
    &&& a.len() == b.len()
    &&& forall|k: int| 0 <= k < a.len() ==> ascii_lower(#[trigger] a[k]) == ascii_lower(b[k])
}

proof fn lemma_same_ignoring_case(a: Seq<char>, b: Seq<char>)
    ensures
        eq_ignore_ascii_case(a, b) <==> same_ignoring_case(a, b),
{
    if same_ignoring_case(a, b) {
        assert(ascii_lowercase(a) =~= ascii_lowercase(b));
    }
    if eq_ignore_ascii_case(a, b) {
        assert(ascii_lowercase(a).len() == a.len());
        assert forall|k: int| 0 <= k < a.len() implies ascii_lower(#[trigger] a[k]) == ascii_lower(
            b[k],
        ) by {
            assert(ascii_lowercase(a)[k] == ascii_lowercase(b)[k]);
        }
    }
}

/// Law: a template without a section list shows every section; one with a
/// list shows exactly the sections named in it, in any ASCII case.
pub proof fn law_section_filter(sections: Seq<String>, section: Seq<char>)
    ensures
        sections.len() == 0 ==> includes_section_spec(sections, section),
        sections.len() > 0 ==> (includes_section_spec(sections, section) <==> exists|i: int|
            0 <= i < sections.len() && same_ignoring_case(#[trigger] sections[i]@, section)),
{
    if sections.len() > 0 {
        if includes_section_spec(sections, section) {
            let i = choose|i: int|
                0 <= i < sections.len() && eq_ignore_ascii_case(#[trigger] sections[i]@, section);
            lemma_same_ignoring_case(sections[i]@, section);
        }
        if exists|i: int| 0 <= i < sections.len() && same_ignoring_case(#[trigger] sections[i]@, section) {
            let i = choose|i: int|
                0 <= i < sections.len() && same_ignoring_case(#[trigger] sections[i]@, section);
            lemma_same_ignoring_case(sections[i]@, section);
        }
    }
}

} // verus!
