//! The parsed headline record and its assembler: the headline line first,
//! then an optional properties drawer. A planning record produced by an
//! external parser can be attached; the record is opaque to this crate.

use vstd::prelude::*;

use crate::config::ParseConfig;
use crate::drawer::{
    drawer_content, drawer_found, drawer_name_of, drawer_rest, last_value, pairs_of,
    parse_properties_drawer, trim_start_of, Properties,
};
use crate::headline::{
    opt_str, parse_headline, spec_keyword, spec_level, spec_priority, spec_raw, spec_rest,
    spec_tags,
};
use crate::text::strs;

verus! {

/// A scheduling/planning annotation. Its grammar belongs to an external
/// parser; this crate carries the record opaquely as the text it came from.
pub struct Planning {
    pub text: String,
}

/// The view of an optional boxed planning record.
pub open spec fn planning_view(o: Option<Box<Planning>>) -> Option<Seq<char>> {
    match o {
        Option::Some(p) => Option::Some(p.text@),
        Option::None => Option::None,
    }
}

/// The views of an association list's entries, in order.
pub open spec fn entries_view(entries: Seq<(String, String)>) -> Seq<(Seq<char>, Seq<char>)> {
    entries.map_values(|e: (String, String)| (e.0@, e.1@))
}

/// A parsed headline.
pub struct Title {
    /// Headline level: the number of marker characters.
    pub level: usize,
    /// Priority cookie letter.
    pub priority: Option<char>,
    /// Trailing tags, left to right as written, duplicates kept.
    pub tags: Vec<String>,
    /// State keyword, present only when the vocabulary contains it.
    pub keyword: Option<String>,
    /// The title text after keyword, priority and tag removal, trimmed.
    pub raw: String,
    /// The externally parsed planning record, if one was attached.
    pub planning: Option<Box<Planning>>,
    /// The properties drawer's key/value map; later duplicates overwrite.
    pub properties: Properties,
}

/// Field-by-field equality of two titles, by the views of their fields.
pub open spec fn field_eq(a: Title, b: Title) -> bool {
    &&& a.level == b.level
    &&& a.priority == b.priority
    &&& strs(a.tags@) == strs(b.tags@)
    &&& opt_str(a.keyword) == opt_str(b.keyword)
    &&& a.raw@ == b.raw@
    &&& planning_view(a.planning) == planning_view(b.planning)
    &&& entries_view(a.properties.entries@) == entries_view(b.properties.entries@)
}

impl Title {
    /// Assemble a `Title` from the input at a marker position: the headline
    /// line always, then a properties drawer when one follows. Returns the
    /// remaining input, the record, and a copy of the raw title text for the
    /// caller's reuse. `None` exactly when no marker run starts the input.
    ///
    /// The planning line, an external grammar, is not consumed here; a
    /// caller that runs the external planning parser on the remaining input
    /// attaches its record with `with_planning`.
    pub fn parse(input: &str, config: &ParseConfig) -> (r: Option<(String, Title, String)>)
        ensures
            r is Some <==> spec_level(input@) >= 1,
            r matches Some((rest, title, raw)) ==> ({
                let todo = config.todo();
                let dones = config.done();
                let after = spec_rest(input@, todo, dones);
                &&& title.level == spec_level(input@)
                &&& opt_str(title.keyword) == spec_keyword(input@, todo, dones)
                &&& title.priority == spec_priority(input@, todo, dones)
                &&& title.raw@ == spec_raw(input@, todo, dones)
                &&& raw@ == title.raw@
                &&& strs(title.tags@) == spec_tags(input@, todo, dones)
                &&& title.planning is None
                &&& title.properties.wf()
                &&& (if drawer_found(after) && drawer_name_of(trim_start_of(after))
                    == "PROPERTIES"@ {
                    &&& rest@ == drawer_rest(after)
                    &&& forall|k: Seq<char>| #![auto]
                        title.properties.spec_get(k) == last_value(
                            pairs_of(drawer_content(after)),
                            k,
                        )
                } else {
                    &&& rest@ == after
                    &&& forall|k: Seq<char>| #![auto] title.properties.spec_get(k) is None
                })
            }),
    {
        match parse_headline(input, config) {
            None => None,
            Some((rest1, parts)) => {
                let (level, keyword, priority, raw, tags) = parts;
                let raw_copy = raw.clone();
                match parse_properties_drawer(rest1.as_str()) {
                    Some((rest2, props)) => {
                        let title = Title {
                            level,
                            priority,
                            tags,
                            keyword,
                            raw,
                            planning: None,
                            properties: props,
                        };
                        Some((rest2, title, raw_copy))
                    },
                    None => {
                        let title = Title {
                            level,
                            priority,
                            tags,
                            keyword,
                            raw,
                            planning: None,
                            properties: Properties::new(),
                        };
                        Some((rest1, title, raw_copy))
                    },
                }
            },
        }
    }

    /// Attach an externally parsed planning record; every other field is
    /// unchanged.
    pub fn with_planning(self, p: Planning) -> (r: Title)
        ensures
            planning_view(r.planning) == Option::Some(p.text@),
            r.level == self.level,
            r.priority == self.priority,
            r.tags == self.tags,
            r.keyword == self.keyword,
            r.raw == self.raw,
            r.properties == self.properties,
    {
        Title {
            level: self.level,
            priority: self.priority,
            tags: self.tags,
            keyword: self.keyword,
            raw: self.raw,
            planning: Some(Box::new(p)),
            properties: self.properties,
        }
    }

    /// The detach operation: a deep copy owning every field anew, equal
    /// field-by-field to the original.
    pub fn into_owned(self) -> (r: Title)
        ensures
            field_eq(r, self),
    {
        let Title { level, priority, tags, keyword, raw, planning, properties } = self;
        let mut tags2: Vec<String> = Vec::new();
        let mut i: usize = 0;
        while i < tags.len()
            invariant
                i <= tags@.len(),
                tags2@.len() == i,
                forall|j: int| 0 <= j < i ==> tags2@[j]@ == tags@[j]@,
            decreases tags@.len() - i,
        {
            tags2.push(tags[i].clone());
            i = i + 1;
        }
        let keyword2 = match &keyword {
            Some(k) => Some(k.clone()),
            None => None,
        };
        let raw2 = raw.clone();
        let planning2 = match &planning {
            Some(p) => Some(Box::new(Planning { text: p.text.clone() })),
            None => None,
        };
        let mut entries2: Vec<(String, String)> = Vec::new();
        let mut j: usize = 0;
        while j < properties.entries.len()
            invariant
                j <= properties.entries@.len(),
                entries2@.len() == j,
                forall|x: int|
                    0 <= x < j ==> entries2@[x].0@ == properties.entries@[x].0@ && entries2@[x].1@
                        == properties.entries@[x].1@,
            decreases properties.entries@.len() - j,
        {
            let pair = (properties.entries[j].0.clone(), properties.entries[j].1.clone());
            entries2.push(pair);
            j = j + 1;
        }
        let r = Title {
            level,
            priority,
            tags: tags2,
            keyword: keyword2,
            raw: raw2,
            planning: planning2,
            properties: Properties { entries: entries2 },
        };
        proof {
            assert(strs(r.tags@) =~= strs(self.tags@));
            assert(entries_view(r.properties.entries@) =~= entries_view(self.properties.entries@));
        }
        r
    }

    /// Whether the headline carries the `ARCHIVE` tag.
    pub fn is_archived(&self) -> (r: bool)
        ensures
            r == strs(self.tags@).contains("ARCHIVE"@),
    {
        let key = "ARCHIVE".to_owned();
        let mut i: usize = 0;
        while i < self.tags.len()
            invariant
                i <= self.tags@.len(),
                key@ == "ARCHIVE"@,
                forall|j: int| 0 <= j < i ==> self.tags@[j]@ != "ARCHIVE"@,
            decreases self.tags@.len() - i,
        {
            if self.tags[i] == key {
                proof {
                    assert(strs(self.tags@)[i as int] == self.tags@[i as int]@);
                }
                return true;
            }
            i = i + 1;
        }
        proof {
            assert forall|j: int| 0 <= j < strs(self.tags@).len() implies strs(self.tags@)[j]
                != "ARCHIVE"@ by {
                assert(strs(self.tags@)[j] == self.tags@[j]@);
            }
        }
        false
    }
}

} // verus!
