//! Size limits of a multipart stream, its fields and their headers.
use vstd::prelude::*;

use crate::constants::{
    DEFAULT_HEADERS_SIZE_LIMIT, DEFAULT_PER_FIELD_SIZE_LIMIT, DEFAULT_WHOLE_STREAM_SIZE_LIMIT,
};

verus! {

/// The limits as values: for the whole stream, for each field, for a
/// field's header block, and for the fields that have a limit of their own.
pub ghost struct SizeLimitView {
    pub whole_stream: u64,
    pub per_field: u64,
    pub headers: u64,
    pub field_map: Map<Seq<char>, u64>,
}

impl SizeLimitView {
    /// The limit for a field with the given name (or none): its own limit if
    /// it has one, else the limit for each field.
    pub open spec fn limit_for(self, field: Option<Seq<char>>) -> u64 {
        match field {
            Some(name) => if self.field_map.contains_key(name) {
                self.field_map[name]
            } else {
                self.per_field
            },
            None => self.per_field,
        }
    }
}

/// Represents size limit of the stream to prevent `DoS` attacks.
#[derive(Debug)]
#[must_use]
pub struct SizeLimit {
    whole_stream: u64,
    per_field: u64,
    headers: u64,
    field_map: Vec<(String, u64)>,
}

/// The limits that a list of (name, limit) entries gives, later entries
/// taking precedence.
pub open spec fn entries_map(entries: Seq<(String, u64)>) -> Map<Seq<char>, u64>
    decreases entries.len(),
{
    if entries.len() == 0 {
        Map::empty()
    } else {
        entries_map(entries.drop_last()).insert(entries.last().0@, entries.last().1)
    }
}

/// No name has two entries.
pub open spec fn names_unique(entries: Seq<(String, u64)>) -> bool {
    forall|i: int, j: int|
        0 <= i < entries.len() && 0 <= j < entries.len() && i != j ==> #[trigger] entries[i].0@
            != #[trigger] entries[j].0@
}

/// A name has a limit exactly when it has an entry, and with unique names
/// the limit is that entry's.
pub proof fn lemma_entries_map_lookup(entries: Seq<(String, u64)>, name: Seq<char>)
    ensures
        entries_map(entries).contains_key(name) <==> exists|i: int|
            0 <= i < entries.len() && #[trigger] entries[i].0@ == name,
        names_unique(entries) ==> forall|i: int|
            0 <= i < entries.len() && #[trigger] entries[i].0@ == name ==> entries_map(
                entries,
            )[name] == entries[i].1,
    decreases entries.len(),
{
    if entries.len() > 0 {
        let init = entries.drop_last();
        lemma_entries_map_lookup(init, name);
        if entries_map(entries).contains_key(name) && entries.last().0@ != name {
            let i = choose|i: int| 0 <= i < init.len() && #[trigger] init[i].0@ == name;
            assert(entries[i].0@ == name);
        }
        if exists|i: int| 0 <= i < entries.len() && #[trigger] entries[i].0@ == name {
            let i = choose|i: int| 0 <= i < entries.len() && #[trigger] entries[i].0@ == name;
            if i < entries.len() - 1 {
                assert(init[i].0@ == name);
            }
        }
        if names_unique(entries) {
            assert(names_unique(init)) by {
                assert forall|i: int, j: int|
                    0 <= i < init.len() && 0 <= j < init.len() && i != j implies #[trigger] init[i].0@
                    != #[trigger] init[j].0@ by {
                    assert(init[i] == entries[i]);
                    assert(init[j] == entries[j]);
                }
            }
            assert forall|i: int|
                0 <= i < entries.len() && #[trigger] entries[i].0@ == name implies entries_map(
                entries,
            )[name] == entries[i].1 by {
                if i < entries.len() - 1 {
                    assert(init[i] == entries[i]);
                    assert(entries[entries.len() - 1].0@ != entries[i].0@);
                }
            }
        }
    }
}

/// Giving the entry at `i` a new limit under the same name sets that name's
/// limit.
pub proof fn lemma_entries_map_update(
    entries: Seq<(String, u64)>,
    i: int,
    entry: (String, u64),
)
    requires
        names_unique(entries),
        0 <= i < entries.len(),
        entry.0@ == entries[i].0@,
    ensures
        names_unique(entries.update(i, entry)),
        entries_map(entries.update(i, entry)) == entries_map(entries).insert(entry.0@, entry.1),
    decreases entries.len(),
{
    let updated = entries.update(i, entry);
    assert(names_unique(updated)) by {
        assert forall|a: int, b: int|
            0 <= a < updated.len() && 0 <= b < updated.len() && a != b implies #[trigger] updated[a].0@
            != #[trigger] updated[b].0@ by {
            assert(updated[a].0@ == entries[a].0@);
            assert(updated[b].0@ == entries[b].0@);
        }
    }
    let init = entries.drop_last();
    if i == entries.len() - 1 {
        assert(updated.drop_last() =~= init);
    } else {
        assert(names_unique(init)) by {
            assert forall|a: int, b: int|
                0 <= a < init.len() && 0 <= b < init.len() && a != b implies #[trigger] init[a].0@
                != #[trigger] init[b].0@ by {
                assert(init[a] == entries[a]);
                assert(init[b] == entries[b]);
            }
        }
        lemma_entries_map_update(init, i, entry);
        assert(updated.drop_last() =~= init.update(i, entry));
        assert(entries.last().0@ != entry.0@);
        assert(entries_map(updated) =~= entries_map(entries).insert(entry.0@, entry.1));
    }
}

impl View for SizeLimit {
    type V = SizeLimitView;

    closed spec fn view(&self) -> SizeLimitView {
        SizeLimitView {
            whole_stream: self.whole_stream,
            per_field: self.per_field,
            headers: self.headers,
            field_map: entries_map(self.field_map@),
        }
    }
}

impl SizeLimit {
    #[verifier::type_invariant]
    spec fn names_are_unique(&self) -> bool {
        names_unique(self.field_map@)
    }

    /// Creates a default size limit which is [`u64::MAX`] for the whole stream
    /// and for each field.
    pub fn new() -> (r: Self)
        ensures
            r@.whole_stream == DEFAULT_WHOLE_STREAM_SIZE_LIMIT,
            r@.per_field == DEFAULT_PER_FIELD_SIZE_LIMIT,
            r@.headers == DEFAULT_HEADERS_SIZE_LIMIT,
            r@.field_map == Map::<Seq<char>, u64>::empty(),
    {
        Self::default()
    }

    /// Sets size limit for the whole stream.
    pub fn whole_stream(self, limit: u64) -> (r: Self)
        ensures
            r@ == (SizeLimitView { whole_stream: limit, ..self@ }),
    {
        proof {
            use_type_invariant(&self);
        }
        SizeLimit {
            whole_stream: limit,
            per_field: self.per_field,
            headers: self.headers,
            field_map: self.field_map,
        }
    }

    /// Sets size limit for each field.
    pub fn per_field(self, limit: u64) -> (r: Self)
        ensures
            r@ == (SizeLimitView { per_field: limit, ..self@ }),
    {
        proof {
            use_type_invariant(&self);
        }
        SizeLimit {
            whole_stream: self.whole_stream,
            per_field: limit,
            headers: self.headers,
            field_map: self.field_map,
        }
    }

    /// Sets size limit for a field's full header block.
    pub fn headers(self, limit: u64) -> (r: Self)
        ensures
            r@ == (SizeLimitView { headers: limit, ..self@ }),
    {
        proof {
            use_type_invariant(&self);
        }
        SizeLimit {
            whole_stream: self.whole_stream,
            per_field: self.per_field,
            headers: limit,
            field_map: self.field_map,
        }
    }

    /// Sets size limit for a specific field, it overrides the
    /// [`per_field`](Self::per_field) value for this field.
    pub fn for_field(self, field_name: &str, limit: u64) -> (r: Self)
        ensures
            r@ == (SizeLimitView {
                field_map: self@.field_map.insert(field_name@, limit),
                ..self@
            }),
    {
        proof {
            use_type_invariant(&self);
        }
        let name = field_name.to_owned();
        let mut field_map = self.field_map;
        let mut i: usize = 0;
        while i < field_map.len()
            invariant
                field_map@ == self.field_map@,
                names_unique(field_map@),
                name@ == field_name@,
                i <= field_map@.len(),
                forall|j: int| 0 <= j < i ==> #[trigger] field_map@[j].0@ != name@,
            decreases field_map@.len() - i,
        {
            if field_map[i].0.eq(&name) {
                proof {
                    lemma_entries_map_update(field_map@, i as int, (name, limit));
                }
                field_map.set(i, (name, limit));
                return SizeLimit {
                    whole_stream: self.whole_stream,
                    per_field: self.per_field,
                    headers: self.headers,
                    field_map,
                };
            }
            i = i + 1;
        }
        let ghost before = field_map@;
        field_map.push((name, limit));
        proof {
            assert(field_map@.drop_last() =~= before);
            assert forall|a: int, b: int|
                0 <= a < field_map@.len() && 0 <= b < field_map@.len() && a != b implies #[trigger] field_map@[a].0@
                != #[trigger] field_map@[b].0@ by {
                if a < before.len() && b < before.len() {
                    assert(field_map@[a] == before[a]);
                    assert(field_map@[b] == before[b]);
                } else if a < before.len() {
                    assert(field_map@[a] == before[a]);
                } else {
                    assert(field_map@[b] == before[b]);
                }
            }
        }
        SizeLimit {
            whole_stream: self.whole_stream,
            per_field: self.per_field,
            headers: self.headers,
            field_map,
        }
    }

    /// The limit for a field with the given name (or none): its own limit if
    /// it has one, else the limit for each field.
    pub fn extract_size_limit_for(&self, field: Option<&str>) -> (r: u64)
        ensures
            r == self@.limit_for(
                match field {
                    Some(f) => Some(f@),
                    None => None,
                },
            ),
    {
        proof {
            use_type_invariant(self);
        }
        let name = match field {
            Some(f) => f.to_owned(),
            None => return self.per_field,
        };
        let mut i: usize = 0;
        while i < self.field_map.len()
            invariant
                names_unique(self.field_map@),
                field matches Some(f) && f@ == name@,
                i <= self.field_map@.len(),
                forall|j: int| 0 <= j < i ==> #[trigger] self.field_map@[j].0@ != name@,
            decreases self.field_map@.len() - i,
        {
            if self.field_map[i].0.eq(&name) {
                proof {
                    lemma_entries_map_lookup(self.field_map@, name@);
                    assert(self.field_map@[i as int].0@ == name@);
                }
                return self.field_map[i].1;
            }
            i = i + 1;
        }
        proof {
            lemma_entries_map_lookup(self.field_map@, name@);
        }
        self.per_field
    }
}

impl Default for SizeLimit {
    fn default() -> (r: Self)
        ensures
            r@.whole_stream == DEFAULT_WHOLE_STREAM_SIZE_LIMIT,
            r@.per_field == DEFAULT_PER_FIELD_SIZE_LIMIT,
            r@.headers == DEFAULT_HEADERS_SIZE_LIMIT,
            r@.field_map == Map::<Seq<char>, u64>::empty(),
    {
        let r = Self {
            whole_stream: DEFAULT_WHOLE_STREAM_SIZE_LIMIT,
            per_field: DEFAULT_PER_FIELD_SIZE_LIMIT,
            headers: DEFAULT_HEADERS_SIZE_LIMIT,
            field_map: Vec::new(),
        };
        assert(r@.field_map =~= Map::<Seq<char>, u64>::empty());
        r
    }
}

/// A limit set for a field is the limit that field then gets, and the
/// limit of every other field (or of a field without a name) is unchanged.
pub proof fn law_field_limit_read_back(
    limits: SizeLimitView,
    name: Seq<char>,
    limit: u64,
    other: Option<Seq<char>>,
)
    ensures
        ({
            let set = SizeLimitView { field_map: limits.field_map.insert(name, limit), ..limits };
            &&& set.limit_for(Some(name)) == limit
            &&& other != Some(name) ==> set.limit_for(other) == limits.limit_for(other)
        }),
{
}

/// A field's own limit overrides the limit for each field, whichever of
/// the two is set last.
pub proof fn law_field_limit_overrides_per_field(
    limits: SizeLimitView,
    name: Seq<char>,
    limit: u64,
    per_field: u64,
)
    ensures
        (SizeLimitView {
            per_field,
            ..SizeLimitView { field_map: limits.field_map.insert(name, limit), ..limits }
        }).limit_for(Some(name)) == limit,
        (SizeLimitView {
            field_map: limits.field_map.insert(name, limit),
            ..SizeLimitView { per_field, ..limits }
        }).limit_for(Some(name)) == limit,
{
}

/// A field without a limit of its own, and a field without a name, get
/// exactly the limit for each field; the limits of the whole stream and of
/// header blocks never change what a field gets.
pub proof fn law_field_limit_is_own_or_per_field(
    limits: SizeLimitView,
    name: Seq<char>,
    whole_stream: u64,
    headers: u64,
    field: Option<Seq<char>>,
)
    ensures
        !limits.field_map.contains_key(name) ==> limits.limit_for(Some(name)) == limits.per_field,
        limits.field_map.contains_key(name) ==> limits.limit_for(Some(name))
            == limits.field_map[name],
        limits.limit_for(None) == limits.per_field,
        (SizeLimitView { headers, ..limits }).limit_for(field) == limits.limit_for(field),
        (SizeLimitView { whole_stream, ..limits }).limit_for(field) == limits.limit_for(field),
{
}

} // verus!
