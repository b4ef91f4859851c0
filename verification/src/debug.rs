//! State of the debug overlay and the text of its lines.
use vstd::prelude::*;
use dynfmt::{Format, SimpleCurlyFormat};
use crate::world::world_generation::Biome;

verus! {

/// What `dynfmt`'s `SimpleCurlyFormat` makes of a template with one number
/// as its argument; `None` when formatting fails.
pub uninterp spec fn curly_format_number(template: Seq<char>, n: usize) -> Option<Seq<char>>;

/// What `dynfmt`'s `SimpleCurlyFormat` makes of a template with one text as
/// its argument; `None` when formatting fails.
pub uninterp spec fn curly_format_text(template: Seq<char>, text: Seq<char>) -> Option<Seq<char>>;

/// The text of an optional string.
pub open spec fn opt_view(s: Option<String>) -> Option<Seq<char>> {
    match s {
        Some(t) => Some(t@),
        None => None,
    }
}

/// Calls `SimpleCurlyFormat.format(template, &[n])` of `dynfmt`. Trusted:
/// the result is `curly_format_number(template, n)`, and a template without
/// `{` comes back unchanged, as `format` returns the template when it finds
/// no placeholder.
#[verifier::external_body]
fn format_number(template: &str, n: usize) -> (r: Option<String>)
    ensures
        opt_view(r) == curly_format_number(template@, n),
        !template@.contains('{') ==> opt_view(r) == Some(template@),
{
    SimpleCurlyFormat.format(template, &[n]).ok().map(|c| c.into_owned())
}

/// Calls `SimpleCurlyFormat.format(template, &[text])` of `dynfmt`. Trusted:
/// the result is `curly_format_text(template, text)`, and a template without
/// `{` comes back unchanged.
#[verifier::external_body]
fn format_text(template: &str, text: &str) -> (r: Option<String>)
    ensures
        opt_view(r) == curly_format_text(template@, text@),
        !template@.contains('{') ==> opt_view(r) == Some(template@),
{
    SimpleCurlyFormat.format(template, &[text]).ok().map(|c| c.into_owned())
}

/// State of the debug overlay.
pub struct DebugMenu {
    /// Whether the overlay is shown.
    pub render: bool,
    /// Number of overlay lines created so far.
    pub ui_line_count: usize,
    /// Whether the player moves at debug speed.
    pub super_speed: bool,
    pub loaded_chunk_count: usize,
    pub total_spawned_entites: u32,
    pub current_biome: Biome,
}

impl Default for DebugMenu {
    fn default() -> (m: DebugMenu)
        ensures
            m.render,
            m.ui_line_count == 0,
            !m.super_speed,
            m.loaded_chunk_count == 0,
            m.total_spawned_entites == 0,
            m.current_biome == Biome::Forest,
    {
        DebugMenu {
            render: true,
            ui_line_count: 0,
            super_speed: false,
            loaded_chunk_count: 0,
            total_spawned_entites: 0,
            current_biome: Biome::Forest,
        }
    }
}

/// A debug line whose template could not be formatted.
#[derive(Clone, Copy, Debug, PartialEq, Eq, Structural)]
pub struct DebugFormatError;

/// Names of the overlay lines that show a value.
pub open spec fn is_loaded_chunks_line(name: Seq<char>) -> bool {
    name == "loaded_chunk_count"@
}

/// The line that shows the number of entities.
pub open spec fn is_entity_count_line(name: Seq<char>) -> bool {
    name == "total_entity_count"@
}

/// The line that shows the player's position.
pub open spec fn is_position_line(name: Seq<char>) -> bool {
    name == "player_position"@
}

fn same_text(a: &str, b: &str) -> (r: bool)
    ensures
        r == (a@ == b@),
{
    let a = a.to_owned();
    let b = b.to_owned();
    a == b
}

impl DebugMenu {
    /// Flips whether the overlay is shown when the toggle key was just
    /// pressed, returning the new setting; otherwise changes nothing.
    pub fn toggle_render(&mut self, pressed: bool) -> (shown: Option<bool>)
        ensures
            pressed ==> final(self).render == !old(self).render && shown == Some(final(self).render),
            !pressed ==> final(self).render == old(self).render && shown is None,
            final(self).ui_line_count == old(self).ui_line_count,
            final(self).super_speed == old(self).super_speed,
            final(self).loaded_chunk_count == old(self).loaded_chunk_count,
            final(self).total_spawned_entites == old(self).total_spawned_entites,
            final(self).current_biome == old(self).current_biome,
    {
        if pressed {
            self.render = !self.render;
            Some(self.render)
        } else {
            None
        }
    }

    /// Flips the debug speed when its key was just pressed.
    pub fn toggle_super_speed(&mut self, pressed: bool)
        ensures
            final(self).super_speed == (old(self).super_speed != pressed),
            final(self).render == old(self).render,
            final(self).ui_line_count == old(self).ui_line_count,
            final(self).loaded_chunk_count == old(self).loaded_chunk_count,
            final(self).total_spawned_entites == old(self).total_spawned_entites,
            final(self).current_biome == old(self).current_biome,
    {
        if pressed {
            self.super_speed = !self.super_speed;
        }
    }

    /// Takes the next overlay line, returning its index, counted from the top.
    pub fn next_line(&mut self) -> (line: usize)
        requires
            old(self).ui_line_count < usize::MAX,
        ensures
            line == old(self).ui_line_count,
            final(self).ui_line_count == old(self).ui_line_count + 1,
            final(self).render == old(self).render,
            final(self).super_speed == old(self).super_speed,
            final(self).loaded_chunk_count == old(self).loaded_chunk_count,
            final(self).total_spawned_entites == old(self).total_spawned_entites,
            final(self).current_biome == old(self).current_biome,
    {
        let line = self.ui_line_count;
        self.ui_line_count = self.ui_line_count + 1;
        line
    }

    /// The text an overlay line named `name` shows, from its `template`: the
    /// loaded chunk count, the entity count, or the player position given as
    /// `coords`. `Ok(None)` for a line of another name, which is left as it
    /// is; an error when the template cannot be formatted.
    pub fn debug_text_value(&self, name: &str, template: &str, coords: &str) -> (r: Result<Option<String>, DebugFormatError>)
        ensures
            is_loaded_chunks_line(name@) ==> match curly_format_number(template@, self.loaded_chunk_count) {
                Some(s) => r matches Ok(Some(t)) && t@ == s,
                None => r is Err,
            },
            is_entity_count_line(name@) ==> match curly_format_number(template@, self.total_spawned_entites as usize) {
                Some(s) => r matches Ok(Some(t)) && t@ == s,
                None => r is Err,
            },
            is_position_line(name@) ==> match curly_format_text(template@, coords@) {
                Some(s) => r matches Ok(Some(t)) && t@ == s,
                None => r is Err,
            },
            !is_loaded_chunks_line(name@) && !is_entity_count_line(name@) && !is_position_line(name@) ==> r == Ok::<
                Option<String>,
                DebugFormatError,
            >(None),
    {
        proof {
            reveal_strlit("loaded_chunk_count");
            reveal_strlit("total_entity_count");
            reveal_strlit("player_position");
            assert("loaded_chunk_count"@[0] != "total_entity_count"@[0]);
            assert("loaded_chunk_count"@ != "total_entity_count"@);
            assert("loaded_chunk_count"@ != "player_position"@);
            assert("total_entity_count"@ != "player_position"@);
        }
        let formatted = if same_text(name, "loaded_chunk_count") {
            format_number(template, self.loaded_chunk_count)
        } else if same_text(name, "total_entity_count") {
            format_number(template, self.total_spawned_entites as usize)
        } else if same_text(name, "player_position") {
            format_text(template, coords)
        } else {
            return Ok(None);
        };
        match formatted {
            Some(s) => Ok(Some(s)),
            None => Err(DebugFormatError),
        }
    }
}

} // verus!
