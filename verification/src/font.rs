use vstd::prelude::*;

use crate::shapes::Boundsi64;

verus! {

/// Identifies a font loaded into a font manager (the bits of its arena index).
#[derive(Clone, Copy, Hash, PartialEq, Eq, Debug, Structural)]
pub struct FontHandle(pub u64);

/// How glyph outlines are rasterised.
#[derive(Clone, Copy, PartialEq, Eq, Debug, Structural)]
pub enum GlyphRenderMode {
    Normal,
    Sdf,
}

/// A FreeType error code.
#[derive(Debug, Clone, Copy, PartialEq, Eq, Structural)]
pub struct FreetypeError(pub u32);

/// Errors of the font manager.
#[derive(Debug)]
#[non_exhaustive]
pub enum FontManagerError {
    Freetype(FreetypeError),
    NoGlyphIndex(u64),
}

/// A rasterised glyph: `rows` lines of `width` coverage bytes.
pub struct GlyphBitmap<'a> {
    pub width: u32,
    pub rows: u32,
    pub buffer: &'a [u8],
}

/// Outline metrics of a loaded glyph, in 26-dot-6 fixed point.
#[derive(Debug, Clone, Copy, PartialEq, Eq, Structural)]
pub struct GlyphMetrics {
    pub width: i64,
    pub height: i64,
    pub hori_bearing_x: i64,
    pub hori_bearing_y: i64,
    pub hori_advance: i64,
    pub vert_bearing_x: i64,
    pub vert_bearing_y: i64,
    pub vert_advance: i64,
}

/// What a font reports of one glyph at one pixel height.
#[derive(Debug, Clone, Copy)]
pub struct GlyphData {
    pub advance: (i32, i32),
    pub bitmap_top: i32,
    pub bitmap_left: i32,
    pub glyph_index: u32,
    pub metrics: GlyphMetrics,
    pub cbox: Boundsi64,
}

/// A glyph (character code) at a pixel height.
#[derive(Debug, Hash, PartialEq, Eq, Clone, Copy, Structural)]
pub struct GlyphKey {
    pub glyph: u64,
    pub font_height: u32,
}

impl GlyphKey {
    pub fn new(glyph: u64, font_height: u32) -> (r: Self)
        ensures
            r.glyph == glyph,
            r.font_height == font_height,
    {
        Self { glyph, font_height }
    }
}

/// The glyph data a font has loaded so far, by glyph and pixel height.
pub struct GlyphCache {
    pub entries: Vec<(GlyphKey, GlyphData)>,
}

/// The cache an association list stands for; keys are unique in it.
pub open spec fn cache_map(s: Seq<(GlyphKey, GlyphData)>) -> Map<GlyphKey, GlyphData>
    decreases s.len(),
{
    if s.len() == 0 {
        Map::empty()
    } else {
        cache_map(s.drop_last()).insert(s.last().0, s.last().1)
    }
}

/// No key occurs twice.
pub open spec fn cache_keys_unique(s: Seq<(GlyphKey, GlyphData)>) -> bool {
    forall|i: int, j: int| 0 <= i < s.len() && 0 <= j < s.len() && i != j ==> s[i].0 != s[j].0
}

proof fn lemma_cache_map(s: Seq<(GlyphKey, GlyphData)>)
    requires
        cache_keys_unique(s),
    ensures
        forall|k: GlyphKey| cache_map(s).contains_key(k) <==> exists|i: int| 0 <= i < s.len() && s[i].0 == k,
        forall|i: int| 0 <= i < s.len() ==> #[trigger] cache_map(s)[s[i].0] == s[i].1,
    decreases s.len(),
{
    if s.len() > 0 {
        let t = s.drop_last();
        assert(cache_keys_unique(t));
        lemma_cache_map(t);
        assert(cache_map(s) == cache_map(t).insert(s.last().0, s.last().1));
        assert forall|k: GlyphKey| cache_map(s).contains_key(k) <==> exists|i: int| 0 <= i < s.len() && s[i].0 == k by {
            if cache_map(s).contains_key(k) && k != s.last().0 {
                assert(cache_map(t).contains_key(k));
                let i = choose|i: int| 0 <= i < t.len() && t[i].0 == k;
                assert(t[i] == s[i]);
                assert(s[i].0 == k);
            }
            if k == s.last().0 {
                assert(s[s.len() - 1].0 == k);
            }
            if exists|i: int| 0 <= i < s.len() && s[i].0 == k {
                let i = choose|i: int| 0 <= i < s.len() && s[i].0 == k;
                if i < s.len() - 1 {
                    assert(t[i] == s[i]);
                    assert(t[i].0 == k);
                    assert(cache_map(t).contains_key(k));
                }
            }
        }
        assert forall|i: int| 0 <= i < s.len() implies #[trigger] cache_map(s)[s[i].0] == s[i].1 by {
            if i < s.len() - 1 {
                assert(t[i] == s[i]);
                assert(s[i].0 != s.last().0);
                assert(cache_map(t)[t[i].0] == t[i].1);
            }
        }
    }
}

impl GlyphCache {
    /// The cached glyphs, by key.
    pub open spec fn view_map(&self) -> Map<GlyphKey, GlyphData> {
        cache_map(self.entries@)
    }

    /// The invariant every operation keeps.
    pub open spec fn wf(&self) -> bool {
        cache_keys_unique(self.entries@)
    }

    /// An empty cache.
    pub fn new() -> (r: Self)
        ensures
            r.wf(),
            r.view_map() == Map::<GlyphKey, GlyphData>::empty(),
    {
        GlyphCache { entries: Vec::new() }
    }

    fn find(&self, key: &GlyphKey) -> (r: Option<usize>)
        requires
            self.wf(),
        ensures
            match r {
                Some(i) => i < self.entries@.len() && self.entries@[i as int].0 == *key,
                None => !self.view_map().contains_key(*key),
            },
    {
        proof {
            lemma_cache_map(self.entries@);
        }
        let mut i: usize = 0;
        while i < self.entries.len()
            invariant
                i <= self.entries@.len(),
                forall|j: int| 0 <= j < i ==> self.entries@[j].0 != *key,
            decreases self.entries@.len() - i,
        {
            if self.entries[i].0.glyph == key.glyph && self.entries[i].0.font_height == key.font_height {
                return Some(i);
            }
            i += 1;
        }
        None
    }

    /// The data of `glyph` at `font_height`, if it was loaded.
    pub fn get_glyph(&self, glyph: u64, font_height: u32) -> (r: Option<GlyphData>)
        requires
            self.wf(),
        ensures
            ({
                let key = GlyphKey { glyph, font_height };
                r == if self.view_map().contains_key(key) { Some(self.view_map()[key]) } else { None }
            }),
    {
        let glyph_key = GlyphKey::new(glyph, font_height);
        proof {
            lemma_cache_map(self.entries@);
        }
        match self.find(&glyph_key) {
            Some(i) => Some(self.entries[i].1),
            None => None,
        }
    }

    /// Completes loading `glyph` at `font_height` with what the font reported
    /// for it: a glyph already cached is returned as cached; data that came
    /// back is cached and returned; an error is returned and nothing cached.
    pub fn record_glyph(
        &mut self,
        glyph: u64,
        font_height: u32,
        loaded: Result<GlyphData, FontManagerError>,
    ) -> (r: Result<GlyphData, FontManagerError>)
        requires
            old(self).wf(),
        ensures
            final(self).wf(),
            ({
                let key = GlyphKey { glyph, font_height };
                if old(self).view_map().contains_key(key) {
                    r == Ok::<GlyphData, FontManagerError>(old(self).view_map()[key])
                        && final(self).view_map() == old(self).view_map()
                } else {
                    match loaded {
                        Ok(d) => r == Ok::<GlyphData, FontManagerError>(d)
                            && final(self).view_map() == old(self).view_map().insert(key, d),
                        Err(e) => r == Err::<GlyphData, FontManagerError>(e)
                            && final(self).view_map() == old(self).view_map(),
                    }
                }
            }),
    {
        let glyph_key = GlyphKey::new(glyph, font_height);
        proof {
            lemma_cache_map(self.entries@);
        }
        if let Some(i) = self.find(&glyph_key) {
            return Ok(self.entries[i].1);
        }
        match loaded {
            Ok(glyph_data) => {
                let ghost old_entries = self.entries@;
                self.entries.push((glyph_key, glyph_data));
                proof {
                    assert(self.entries@.drop_last() =~= old_entries);
                    assert forall|i: int, j: int| 0 <= i < self.entries@.len() && 0 <= j < self.entries@.len() && i != j
                        implies self.entries@[i].0 != self.entries@[j].0 by {
                        if i < old_entries.len() && j == old_entries.len() {
                            assert(old_entries[i].0 != glyph_key);
                        }
                        if j < old_entries.len() && i == old_entries.len() {
                            assert(old_entries[j].0 != glyph_key);
                        }
                    }
                }
                Ok(glyph_data)
            },
            Err(e) => Err(e),
        }
    }
}

/// What a load records in the cache a later lookup gives back, and every
/// other glyph stays as it was: `before` and `after` are the cache around a
/// load of `key` that was not cached and came back as `d`.
pub proof fn law_cache_reads_back(before: GlyphCache, after: GlyphCache, key: GlyphKey, d: GlyphData, other: GlyphKey)
    requires
        after.view_map() == before.view_map().insert(key, d),
    ensures
        after.view_map().contains_key(key),
        after.view_map()[key] == d,
        other != key ==> after.view_map().contains_key(other) == before.view_map().contains_key(other),
        other != key && before.view_map().contains_key(other) ==> after.view_map()[other] == before.view_map()[other],
{
}

} // verus!
