//! The tag taxonomy: an ordered sequence of tag names without duplicates
//! and a mapping from tag name to a display color. The taxonomy is changed
//! as a whole value (read, modify, write back); loading and persisting it
//! is the caller's business, while the rules that change it live here.

use vstd::prelude::*;
use crate::entry::{str_views, vec_contains_str};

verus! {

/// One tag-to-color association.
#[derive(Debug)]
pub struct TagColor {
    pub tag: String,
    pub color: String,
}

impl Clone for TagColor {
    fn clone(&self) -> (r: Self)
        ensures
            r == *self,
    {
        TagColor { tag: self.tag.clone(), color: self.color.clone() }
    }
}

/// Mathematical model of the taxonomy: the tag names in order, and the
/// colors as a map.
pub struct TagConfigModel {
    pub tags: Seq<Seq<char>>,
    pub colors: Map<Seq<char>, Seq<char>>,
}

/// The taxonomy: ordered tag names and their display colors.
#[derive(Debug)]
pub struct TagConfig {
    pub available_tags: Vec<String>,
    pub tag_colors: Vec<TagColor>,
}

/// The tag names of a color association list.
pub open spec fn color_keys(s: Seq<TagColor>) -> Seq<Seq<char>> {
    Seq::new(s.len(), |i: int| s[i].tag@)
}

/// The map a color association list denotes; a later pair wins.
pub open spec fn colors_map(s: Seq<TagColor>) -> Map<Seq<char>, Seq<char>>
    decreases s.len(),
{
    if s.len() == 0 {
        Map::empty()
    } else {
        colors_map(s.drop_last()).insert(s.last().tag@, s.last().color@)
    }
}

/// A string sequence without any occurrence of `t`, order kept.
pub open spec fn without(tags: Seq<Seq<char>>, t: Seq<char>) -> Seq<Seq<char>>
    decreases tags.len(),
{
    if tags.len() == 0 {
        Seq::empty()
    } else {
        let rest = without(tags.drop_last(), t);
        if tags.last() == t {
            rest
        } else {
            rest.push(tags.last())
        }
    }
}

/// No element of a sequence repeats.
pub open spec fn distinct_strs(s: Seq<Seq<char>>) -> bool {
    forall|a: int, b: int| 0 <= a < b < s.len() ==> s[a] != s[b]
}

impl View for TagConfig {
    type V = TagConfigModel;

    open spec fn view(&self) -> TagConfigModel {
        TagConfigModel {
            tags: str_views(self.available_tags@),
            colors: colors_map(self.tag_colors@),
        }
    }
}

impl TagConfig {
    /// Well-formedness: no tag name repeats, neither in the sequence nor
    /// among the color keys.
    pub open spec fn wf(&self) -> bool {
        distinct_strs(str_views(self.available_tags@)) && distinct_strs(
            color_keys(self.tag_colors@),
        )
    }
}

impl Default for TagConfig {
    /// The empty taxonomy.
    fn default() -> (c: Self)
        ensures
            c.wf(),
            c@.tags == Seq::<Seq<char>>::empty(),
            c@.colors == Map::<Seq<char>, Seq<char>>::empty(),
    {
        let c = TagConfig { available_tags: Vec::new(), tag_colors: Vec::new() };
        proof {
            assert(c@.tags =~= Seq::<Seq<char>>::empty());
        }
        c
    }
}

/// Replacing the pair at `j`, whose key is already `x.tag`, denotes the
/// same map as inserting that key.
proof fn lemma_colors_map_update(s: Seq<TagColor>, j: int, x: TagColor)
    requires
        0 <= j < s.len(),
        distinct_strs(color_keys(s)),
        s[j].tag@ == x.tag@,
    ensures
        colors_map(s.update(j, x)) == colors_map(s).insert(x.tag@, x.color@),
    decreases s.len(),
{
    let up = s.update(j, x);
    if j == s.len() - 1 {
        assert(up.drop_last() =~= s.drop_last());
        assert(up.last() == x);
    } else {
        assert(up.drop_last() =~= s.drop_last().update(j, x));
        assert(distinct_strs(color_keys(s.drop_last()))) by {
            assert forall|a: int, b: int|
                0 <= a < b < s.drop_last().len() implies color_keys(s.drop_last())[a]
                != color_keys(s.drop_last())[b] by {
                assert(color_keys(s)[a] != color_keys(s)[b]);
            }
        }
        lemma_colors_map_update(s.drop_last(), j, x);
        assert(color_keys(s)[j] != color_keys(s)[s.len() - 1]);
        assert(colors_map(up) =~= colors_map(s).insert(x.tag@, x.color@));
    }
}

impl TagConfig {
    /// Appends `tag` to the sequence unless it is already present, and —
    /// when a color is supplied — inserts or overwrites that tag's color.
    pub fn add_tag(&mut self, tag: String, color: Option<String>)
        requires
            old(self).wf(),
        ensures
            final(self).wf(),
            final(self)@.tags == (if old(self)@.tags.contains(tag@) {
                old(self)@.tags
            } else {
                old(self)@.tags.push(tag@)
            }),
            color is Some ==> final(self)@.colors == old(self)@.colors.insert(tag@, color->0@),
            color is None ==> final(self)@.colors == old(self)@.colors,
    {
        let ghost pretags = str_views(self.available_tags@);
        if !vec_contains_str(&self.available_tags, &tag) {
            self.available_tags.push(tag.clone());
            proof {
                assert(str_views(self.available_tags@) =~= pretags.push(tag@));
                assert forall|a: int, b: int|
                    0 <= a < b < str_views(self.available_tags@).len() implies str_views(
                    self.available_tags@,
                )[a] != str_views(self.available_tags@)[b] by {
                    if b < pretags.len() {
                        assert(str_views(self.available_tags@)[a] == pretags[a]);
                        assert(str_views(self.available_tags@)[b] == pretags[b]);
                    } else {
                        assert(str_views(self.available_tags@)[b] == tag@);
                        assert(str_views(self.available_tags@)[a] == pretags[a]);
                        assert(pretags.contains(pretags[a]));
                    }
                }
            }
        }
        if let Some(c) = color {
            let n = self.tag_colors.len();
            let mut j: usize = 0;
            while j < n && !self.tag_colors[j].tag.eq(&tag)
                invariant
                    n == self.tag_colors.len(),
                    j <= n,
                    forall|q: int|
                        0 <= q < j ==> #[trigger] color_keys(self.tag_colors@)[q] != tag@,
                decreases n - j,
            {
                proof {
                    assert(color_keys(self.tag_colors@)[j as int] == self.tag_colors@[j as int].tag@);
                }
                j += 1;
            }
            let ghost precolors = self.tag_colors@;
            let nc = TagColor { tag: tag, color: c };
            let ghost ncg = nc;
            if j < n {
                proof {
                    assert(color_keys(precolors)[j as int] == precolors[j as int].tag@);
                }
                let mut out: Vec<TagColor> = Vec::new();
                let mut w: usize = 0;
                while w < j
                    invariant
                        j < self.tag_colors.len(),
                        w <= j,
                        self.tag_colors@ == precolors,
                        out@.len() == w,
                        forall|q: int| 0 <= q < w ==> out@[q] == #[trigger] precolors[q],
                    decreases j - w,
                {
                    out.push(self.tag_colors[w].clone());
                    w += 1;
                }
                out.push(nc);
                let mut w: usize = j + 1;
                while w < self.tag_colors.len()
                    invariant
                        j < self.tag_colors.len(),
                        j + 1 <= w <= self.tag_colors.len(),
                        self.tag_colors@ == precolors,
                        out@.len() == w,
                        out@[j as int] == ncg,
                        forall|q: int| 0 <= q < w && q != j ==> out@[q] == #[trigger] precolors[q],
                    decreases self.tag_colors.len() - w,
                {
                    out.push(self.tag_colors[w].clone());
                    w += 1;
                }
                self.tag_colors = out;
                proof {
                    assert(self.tag_colors@ =~= precolors.update(j as int, ncg));
                    lemma_colors_map_update(precolors, j as int, ncg);
                    assert forall|a: int, b: int|
                        0 <= a < b < color_keys(self.tag_colors@).len() implies color_keys(
                        self.tag_colors@,
                    )[a] != color_keys(self.tag_colors@)[b] by {
                        assert(color_keys(precolors)[a] != color_keys(precolors)[b]);
                        assert(color_keys(self.tag_colors@)[a] == (if a == j as int {
                            ncg.tag@
                        } else {
                            color_keys(precolors)[a]
                        }));
                        assert(color_keys(self.tag_colors@)[b] == (if b == j as int {
                            ncg.tag@
                        } else {
                            color_keys(precolors)[b]
                        }));
                    }
                }
            } else {
                self.tag_colors.push(nc);
                proof {
                    assert(self.tag_colors@.drop_last() =~= precolors);
                    assert(colors_map(self.tag_colors@) == colors_map(precolors).insert(
                        ncg.tag@,
                        ncg.color@,
                    ));
                    assert forall|a: int, b: int|
                        0 <= a < b < color_keys(self.tag_colors@).len() implies color_keys(
                        self.tag_colors@,
                    )[a] != color_keys(self.tag_colors@)[b] by {
                        if b < precolors.len() {
                            assert(color_keys(self.tag_colors@)[a] == color_keys(precolors)[a]);
                            assert(color_keys(self.tag_colors@)[b] == color_keys(precolors)[b]);
                        } else {
                            assert(color_keys(self.tag_colors@)[b] == tag@);
                            assert(color_keys(self.tag_colors@)[a] == color_keys(precolors)[a]);
                        }
                    }
                }
            }
        }
    }
}

} // verus!

verus! {

/// A color list without any pair keyed by `t`, order kept.
pub open spec fn colors_without(s: Seq<TagColor>, t: Seq<char>) -> Seq<TagColor>
    decreases s.len(),
{
    if s.len() == 0 {
        Seq::empty()
    } else {
        let rest = colors_without(s.drop_last(), t);
        if s.last().tag@ == t {
            rest
        } else {
            rest.push(s.last())
        }
    }
}

/// One-step unfolding of `without` over an appended element.
pub proof fn lemma_without_push(s: Seq<Seq<char>>, x: Seq<char>, t: Seq<char>)
    ensures
        without(s.push(x), t) == (if x == t {
            without(s, t)
        } else {
            without(s, t).push(x)
        }),
{
    assert(s.push(x).drop_last() =~= s);
}

/// One-step unfolding of `colors_without` over an appended pair.
proof fn lemma_colors_without_push(s: Seq<TagColor>, x: TagColor, t: Seq<char>)
    ensures
        colors_without(s.push(x), t) == (if x.tag@ == t {
            colors_without(s, t)
        } else {
            colors_without(s, t).push(x)
        }),
{
    assert(s.push(x).drop_last() =~= s);
}

/// What `without` keeps: no occurrence of `t`, only elements of the
/// original, and distinctness is preserved.
pub proof fn lemma_without_props(s: Seq<Seq<char>>, t: Seq<char>)
    ensures
        forall|k: int| 0 <= k < without(s, t).len() ==> #[trigger] without(s, t)[k] != t,
        forall|k: int| 0 <= k < without(s, t).len() ==> s.contains(#[trigger] without(s, t)[k]),
        distinct_strs(s) ==> distinct_strs(without(s, t)),
        distinct_strs(s) ==> forall|x: Seq<char>|
            #[trigger] without(s, t).contains(x) <==> (s.contains(x) && x != t),
    decreases s.len(),
{
    if s.len() > 0 {
        let prefix = s.drop_last();
        let rest = without(prefix, t);
        let out = without(s, t);
        lemma_without_props(prefix, t);
        assert forall|k: int| 0 <= k < rest.len() implies s.contains(rest[k]) by {
            let i = choose|i: int| 0 <= i < prefix.len() && prefix[i] == rest[k];
            assert(s[i] == rest[k]);
        }
        if distinct_strs(s) {
            assert(distinct_strs(prefix)) by {
                assert forall|a: int, b: int|
                    0 <= a < b < prefix.len() implies prefix[a] != prefix[b] by {
                    assert(s[a] != s[b]);
                }
            }
            if s.last() != t {
                assert(out == rest.push(s.last()));
                assert forall|a: int, b: int| 0 <= a < b < out.len() implies out[a] != out[b] by {
                    if b < rest.len() {
                        assert(out[a] == rest[a] && out[b] == rest[b]);
                    } else {
                        assert(out[b] == s.last());
                        assert(out[a] == rest[a]);
                        assert(prefix.contains(rest[a]));
                        let i = choose|i: int| 0 <= i < prefix.len() && prefix[i] == rest[a];
                        assert(s[i] != s[s.len() - 1]);
                    }
                }
            }
            assert forall|x: Seq<char>|
                #[trigger] out.contains(x) <==> (s.contains(x) && x != t) by {
                if out.contains(x) {
                    let w = choose|w: int| 0 <= w < out.len() && out[w] == x;
                    if s.last() != t && w == rest.len() {
                        assert(x == s.last());
                        assert(s[s.len() - 1] == x);
                    } else {
                        assert(rest[w] == x);
                        assert(rest.contains(x));
                        let i = choose|i: int| 0 <= i < prefix.len() && prefix[i] == x;
                        assert(s[i] == x);
                    }
                }
                if s.contains(x) && x != t {
                    let i = choose|i: int| 0 <= i < s.len() && s[i] == x;
                    if i == s.len() - 1 {
                        assert(s.last() == x);
                        assert(out == rest.push(x));
                        assert(out[rest.len() as int] == x);
                    } else {
                        assert(prefix[i] == x);
                        assert(rest.contains(x));
                        let w = choose|w: int| 0 <= w < rest.len() && rest[w] == x;
                        assert(out[w] == x);
                    }
                }
            }
        }
    }
}

/// Dropping the pairs keyed by `t` denotes removing `t` from the map, and
/// keeps the remaining keys and their distinctness.
proof fn lemma_colors_map_remove(s: Seq<TagColor>, t: Seq<char>)
    requires
        distinct_strs(color_keys(s)),
    ensures
        colors_map(colors_without(s, t)) == colors_map(s).remove(t),
        distinct_strs(color_keys(colors_without(s, t))),
        forall|k: int|
            0 <= k < colors_without(s, t).len() ==> (#[trigger] colors_without(s, t)[k]).tag@
                != t,
    decreases s.len(),
{
    if s.len() == 0 {
        assert(colors_map(colors_without(s, t)) =~= colors_map(s).remove(t));
    } else {
        let prefix = s.drop_last();
        let rest = colors_without(prefix, t);
        let out = colors_without(s, t);
        assert(distinct_strs(color_keys(prefix))) by {
            assert forall|a: int, b: int|
                0 <= a < b < prefix.len() implies color_keys(prefix)[a] != color_keys(
                prefix,
            )[b] by {
                assert(color_keys(s)[a] != color_keys(s)[b]);
            }
        }
        lemma_colors_map_remove(prefix, t);
        if s.last().tag@ == t {
            assert(out == rest);
            assert(colors_map(s) == colors_map(prefix).insert(t, s.last().color@));
            assert(colors_map(s).remove(t) =~= colors_map(prefix).remove(t));
        } else {
            assert(out == rest.push(s.last()));
            assert(colors_map(out) == colors_map(rest).insert(s.last().tag@, s.last().color@))
                by {
                assert(out.drop_last() =~= rest);
            }
            assert(colors_map(s).remove(t) =~= colors_map(prefix).remove(t).insert(
                s.last().tag@,
                s.last().color@,
            ));
            assert forall|a: int, b: int|
                0 <= a < b < out.len() implies color_keys(out)[a] != color_keys(out)[b] by {
                if b < rest.len() {
                    assert(color_keys(out)[a] == rest[a].tag@ && color_keys(out)[b]
                        == rest[b].tag@);
                    assert(color_keys(rest)[a] == rest[a].tag@ && color_keys(rest)[b]
                        == rest[b].tag@);
                } else {
                    assert(color_keys(out)[b] == s.last().tag@);
                    assert(color_keys(out)[a] == rest[a].tag@);
                    assert(color_keys(rest)[a] == rest[a].tag@);
                    assert(prefix.contains(rest[a])) by {
                        lemma_colors_without_contains(prefix, t, rest[a]);
                    }
                    let i = choose|i: int| 0 <= i < prefix.len() && prefix[i] == rest[a];
                    assert(color_keys(s)[i] != color_keys(s)[s.len() - 1]);
                }
            }
        }
    }
}

/// Every pair kept by `colors_without` stems from the original list.
proof fn lemma_colors_without_contains(s: Seq<TagColor>, t: Seq<char>, x: TagColor)
    requires
        colors_without(s, t).contains(x),
    ensures
        s.contains(x),
    decreases s.len(),
{
    if s.len() > 0 {
        let prefix = s.drop_last();
        let rest = colors_without(prefix, t);
        let out = colors_without(s, t);
        let w = choose|w: int| 0 <= w < out.len() && out[w] == x;
        if s.last().tag@ != t && w == rest.len() {
            assert(s[s.len() - 1] == x);
        } else {
            assert(rest[w] == x);
            assert(rest.contains(x));
            lemma_colors_without_contains(prefix, t, x);
            let i = choose|i: int| 0 <= i < prefix.len() && prefix[i] == x;
            assert(s[i] == x);
        }
    }
}

impl TagConfig {
    /// Removes `tag` from the sequence and deletes its color entry; a
    /// no-op success when the tag is absent, so removing twice is safe.
    pub fn remove_tag(&mut self, tag: String)
        requires
            old(self).wf(),
        ensures
            final(self).wf(),
            final(self)@.tags == without(old(self)@.tags, tag@),
            final(self)@.colors == old(self)@.colors.remove(tag@),
    {
        let ghost pretags = str_views(self.available_tags@);
        let ghost precolors = self.tag_colors@;

        let mut keep: Vec<String> = Vec::new();
        let mut i: usize = 0;
        while i < self.available_tags.len()
            invariant
                i <= self.available_tags.len(),
                str_views(self.available_tags@) == pretags,
                str_views(keep@) == without(pretags.take(i as int), tag@),
            decreases self.available_tags.len() - i,
        {
            proof {
                assert(pretags.take(i as int + 1) =~= pretags.take(i as int).push(
                    pretags[i as int],
                ));
                lemma_without_push(pretags.take(i as int), pretags[i as int], tag@);
                assert(pretags[i as int] == self.available_tags@[i as int]@);
            }
            if !self.available_tags[i].eq(&tag) {
                keep.push(self.available_tags[i].clone());
                proof {
                    assert(str_views(keep@) =~= without(pretags.take(i as int), tag@).push(
                        pretags[i as int],
                    ));
                }
            }
            i += 1;
        }
        proof {
            assert(pretags.take(pretags.len() as int) =~= pretags);
            assert(str_views(self.available_tags@).len() == self.available_tags@.len());
        }
        self.available_tags = keep;

        let mut keepc: Vec<TagColor> = Vec::new();
        let mut i: usize = 0;
        while i < self.tag_colors.len()
            invariant
                i <= self.tag_colors.len(),
                self.tag_colors@ == precolors,
                keepc@ == colors_without(precolors.take(i as int), tag@),
            decreases self.tag_colors.len() - i,
        {
            proof {
                assert(precolors.take(i as int + 1) =~= precolors.take(i as int).push(
                    precolors[i as int],
                ));
                lemma_colors_without_push(precolors.take(i as int), precolors[i as int], tag@);
            }
            if !self.tag_colors[i].tag.eq(&tag) {
                keepc.push(self.tag_colors[i].clone());
                proof {
                    assert(keepc@ =~= colors_without(precolors.take(i as int), tag@).push(
                        precolors[i as int],
                    ));
                }
            }
            i += 1;
        }
        proof {
            assert(precolors.take(precolors.len() as int) =~= precolors);
        }
        self.tag_colors = keepc;

        proof {
            lemma_without_props(pretags, tag@);
            lemma_colors_map_remove(precolors, tag@);
        }
    }
}

} // verus!
