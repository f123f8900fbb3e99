//! World records as the remote catalog serves them, their conversion into
//! the store's own model, and the search-query builder.

use vstd::prelude::*;

use crate::entities::WorldApiData;
use crate::entities::WorldDisplayData;
use crate::entities::spec_classify_platform;
use crate::errors::EntityError;
use crate::trusted::rfc3339_parsed_of;
use crate::trusted::url_encoded_of;

verus! {

/// A world's release status.
#[derive(Clone, Copy, Debug, PartialEq, Eq, Structural, Hash)]
pub enum ReleaseStatus {
    Public,
    Private,
    Hidden,
    All,
}

impl Default for ReleaseStatus {
    /// The default release status is public.
    fn default() -> (r: Self)
        ensures
            r == ReleaseStatus::Public,
    {
        ReleaseStatus::Public
    }
}

/// One build of a world, named by the platform it targets.
pub struct UnityPackage {
    pub platform: String,
}

/// A favorited world, as the catalog lists it.
pub struct FavoriteWorld {
    pub author_id: String,
    pub author_name: String,
    pub capacity: i32,
    pub description: String,
    pub recommended_capacity: Option<i32>,
    pub created_at: String,
    pub favorites: i32,
    pub favorite_group: String,
    pub visits: Option<i32>,
    pub id: String,
    pub image_url: String,
    pub name: String,
    pub publication_date: String,
    pub release_status: ReleaseStatus,
    pub tags: Vec<String>,
    pub thumbnail_image_url: String,
    pub unity_packages: Vec<UnityPackage>,
    pub updated_at: String,
    pub version: i32,
}

/// A favorited world whose record the catalog has redacted.
pub struct HiddenWorld {
    pub author_name: String,
    pub capacity: i32,
    pub favorite_group: String,
    pub id: String,
    pub image_url: String,
    pub name: String,
    pub release_status: ReleaseStatus,
    pub thumbnail_image_url: String,
}

/// A favorites entry: either a full record or a redacted one.
pub enum FavoriteWorldParser {
    World(FavoriteWorld),
    HiddenWorld(HiddenWorld),
}

/// The platform names of a package list, first occurrence of each kept,
/// later repeats dropped.
pub open spec fn spec_dedup(s: Seq<Seq<char>>) -> Seq<Seq<char>>
    decreases s.len(),
{
    if s.len() == 0 {
        Seq::<Seq<char>>::empty()
    } else {
        let rest = spec_dedup(s.drop_last());
        if rest.contains(s.last()) {
            rest
        } else {
            rest.push(s.last())
        }
    }
}

/// Copies a list of strings dropping every repeat of an earlier entry.
pub fn dedup_strings(v: &Vec<String>) -> (r: Vec<String>)
    ensures
        r.deep_view() == spec_dedup(v.deep_view()),
{
    let mut r: Vec<String> = Vec::new();
    let mut i: usize = 0;
    proof {
        assert(v.deep_view().subrange(0, 0) =~= Seq::<Seq<char>>::empty());
        assert(r.deep_view() =~= Seq::<Seq<char>>::empty());
    }
    while i < v.len()
        invariant
            0 <= i <= v@.len(),
            v.deep_view().len() == v@.len(),
            r.deep_view() == spec_dedup(v.deep_view().subrange(0, i as int)),
        decreases v@.len() - i,
    {
        proof {
            assert(v.deep_view()[i as int] == v@[i as int]@);
            assert(v.deep_view().subrange(0, i + 1).drop_last() =~= v.deep_view().subrange(
                0,
                i as int,
            ));
            assert(v.deep_view().subrange(0, i + 1).last() == v@[i as int]@);
        }
        let present = crate::text::vec_contains_string(&r, &v[i]);
        proof {
            crate::entities::lemma_contains_string_deep_view(r, v@[i as int]@);
        }
        if !present {
            r.push(v[i].clone());
            proof {
                assert(vstd::pervasive::cloned::<String>(v@[i as int], r@[r@.len() - 1]));
                assert(r.deep_view() =~= spec_dedup(v.deep_view().subrange(0, i + 1)));
            }
        }
        i = i + 1;
    }
    proof {
        assert(v.deep_view().subrange(0, v@.len() as int) =~= v.deep_view());
    }
    r
}

/// The platform names of a package list, in order of first occurrence.
pub fn platforms_of_packages(packages: &Vec<UnityPackage>) -> (r: Vec<String>)
    ensures
        r.deep_view() == spec_dedup(
            packages@.map_values(|p: UnityPackage| p.platform@),
        ),
{
    let mut names: Vec<String> = Vec::new();
    let mut i: usize = 0;
    while i < packages.len()
        invariant
            0 <= i <= packages@.len(),
            names@.len() == i,
            forall|k: int| 0 <= k < i ==> #[trigger] names@[k]@ == packages@[k].platform@,
        decreases packages@.len() - i,
    {
        names.push(packages[i].platform.clone());
        i = i + 1;
    }
    proof {
        let m = packages@.map_values(|p: UnityPackage| p.platform@);
        assert forall|k: int| 0 <= k < m.len() implies names.deep_view()[k] == m[k] by {
            assert(names.deep_view()[k] == names@[k]@);
        }
        assert(names.deep_view() =~= m);
    }
    dedup_strings(&names)
}

impl FavoriteWorld {
    /// Converts the catalog record into the store's provenance model.
    /// The publication date "none" means none was published; any other
    /// text must parse as RFC 3339, as must the update stamp, else the
    /// record is rejected as carrying an invalid timestamp. A recommended
    /// capacity is kept only where it is positive; the platform list is
    /// the packages' platforms with repeats dropped.
    pub fn to_api_data(self) -> (r: Result<WorldApiData, EntityError>)
        ensures
            r is Ok <==> (self.publication_date@ == "none"@ || rfc3339_parsed_of(
                self.publication_date@,
            ) is Some) && rfc3339_parsed_of(self.updated_at@) is Some,
            r matches Ok(w) ==> {
                &&& w.image_url@ == self.image_url@
                &&& w.world_name@ == self.name@
                &&& w.world_id@ == self.id@
                &&& w.author_name@ == self.author_name@
                &&& w.author_id@ == self.author_id@
                &&& w.capacity == self.capacity
                &&& w.recommended_capacity == (match self.recommended_capacity {
                    Some(c) => if c > 0 {
                        Some(c)
                    } else {
                        None
                    },
                    None => None,
                })
                &&& w.tags@ == self.tags@
                &&& w.publication_date == (if self.publication_date@ == "none"@ {
                    None::<i64>
                } else {
                    rfc3339_parsed_of(self.publication_date@)
                })
                &&& Some(w.last_update) == rfc3339_parsed_of(self.updated_at@)
                &&& w.description@ == self.description@
                &&& w.visits == self.visits
                &&& w.favorites == self.favorites
                &&& w.platform.deep_view() == spec_dedup(
                    self.unity_packages@.map_values(|p: UnityPackage| p.platform@),
                )
            },
            r matches Err(e) ==> e matches EntityError::InvalidTimestamp(_),
    {
        let publication_date: Option<i64> = if self.publication_date == String::from_str("none") {
            None
        } else {
            match crate::trusted::parse_timestamp_rfc3339(self.publication_date.as_str()) {
                Some(t) => Some(t),
                None => {
                    return Err(EntityError::InvalidTimestamp(self.publication_date));
                },
            }
        };
        let last_update = match crate::trusted::parse_timestamp_rfc3339(self.updated_at.as_str()) {
            Some(t) => t,
            None => {
                return Err(EntityError::InvalidTimestamp(self.updated_at));
            },
        };
        let platform = platforms_of_packages(&self.unity_packages);
        let recommended_capacity = match self.recommended_capacity {
            Some(c) => if c > 0 {
                Some(c)
            } else {
                None
            },
            None => None,
        };
        Ok(
            WorldApiData {
                image_url: self.image_url,
                world_name: self.name,
                world_id: self.id,
                author_name: self.author_name,
                author_id: self.author_id,
                capacity: self.capacity,
                recommended_capacity,
                tags: self.tags,
                publication_date,
                last_update,
                description: self.description,
                visits: self.visits,
                favorites: self.favorites,
                platform,
            },
        )
    }
}

/// A search hit, as the catalog returns it.
pub struct VRChatWorld {
    pub author_id: String,
    pub author_name: String,
    pub capacity: i32,
    pub recommended_capacity: Option<i32>,
    pub created_at: String,
    pub favorites: i32,
    pub visits: Option<i32>,
    pub heat: i32,
    pub id: String,
    pub image_url: String,
    pub name: String,
    pub popularity: i32,
    pub publication_date: String,
    pub release_status: ReleaseStatus,
    pub tags: Vec<String>,
    pub thumbnail_image_url: String,
    pub unity_packages: Vec<UnityPackage>,
    pub updated_at: String,
}

impl VRChatWorld {
    /// The display projection of a search hit: not yet in the store, so
    /// no date added, no folders, and all status flags clear.
    pub fn to_display_data(self) -> (r: WorldDisplayData)
        ensures
            r.world_id@ == self.id@,
            r.name@ == self.name@,
            r.thumbnail_url@ == self.image_url@,
            r.author_name@ == self.author_name@,
            r.favorites == self.favorites,
            r.last_updated@ == self.updated_at@,
            r.visits == (match self.visits {
                Some(v) => v,
                None => 0,
            }),
            r.date_added@ == Seq::<char>::empty(),
            r.platform == spec_classify_platform(
                spec_dedup(self.unity_packages@.map_values(|p: UnityPackage| p.platform@)),
            ),
            r.folders.deep_view() == Seq::<Seq<char>>::empty(),
            r.tags@ == self.tags@,
            r.capacity == self.capacity,
            !r.is_photographed,
            !r.is_shared,
            !r.is_favorite,
    {
        let platform = platforms_of_packages(&self.unity_packages);
        let folders: Vec<String> = Vec::new();
        proof {
            assert(folders.deep_view() =~= Seq::<Seq<char>>::empty());
        }
        WorldDisplayData {
            world_id: self.id,
            name: self.name,
            thumbnail_url: self.image_url,
            author_name: self.author_name,
            favorites: self.favorites,
            last_updated: self.updated_at,
            visits: match self.visits {
                Some(v) => v,
                None => 0,
            },
            date_added: String::new(),
            platform: crate::entities::classify_platform_vec(&platform),
            folders,
            tags: self.tags,
            capacity: self.capacity,
            is_photographed: false,
            is_shared: false,
            is_favorite: false,
        }
    }
}

/// The orders a world search can ask the catalog for.
#[derive(Clone, Copy, Debug, PartialEq, Eq, Structural)]
pub enum SearchWorldSort {
    Popularity,
    Heat,
    Trust,
    Shuffle,
    Random,
    Favorites,
    ReportScore,
    ReportCount,
    PublicationDate,
    LabsPublicationDate,
    Created,
    CreatedAt,
    Updated,
    UpdatedAt,
    Order,
    Relevance,
    Magic,
    Name,
}

impl SearchWorldSort {
    /// The order's wire name.
    pub open spec fn wire_name(&self) -> Seq<char> {
        match self {
            SearchWorldSort::Popularity => "popularity"@,
            SearchWorldSort::Heat => "heat"@,
            SearchWorldSort::Trust => "trust"@,
            SearchWorldSort::Shuffle => "shuffle"@,
            SearchWorldSort::Random => "random"@,
            SearchWorldSort::Favorites => "favorites"@,
            SearchWorldSort::ReportScore => "reportScore"@,
            SearchWorldSort::ReportCount => "reportCount"@,
            SearchWorldSort::PublicationDate => "publicationDate"@,
            SearchWorldSort::LabsPublicationDate => "labsPublicationDate"@,
            SearchWorldSort::Created => "created"@,
            SearchWorldSort::CreatedAt => "_created_at"@,
            SearchWorldSort::Updated => "updated"@,
            SearchWorldSort::UpdatedAt => "_updated_at"@,
            SearchWorldSort::Order => "order"@,
            SearchWorldSort::Relevance => "relevance"@,
            SearchWorldSort::Magic => "magic"@,
            SearchWorldSort::Name => "name"@,
        }
    }

    /// The order's wire name.
    pub fn as_str(&self) -> (r: &'static str)
        ensures
            r@ == self.wire_name(),
    {
        match self {
            SearchWorldSort::Popularity => "popularity",
            SearchWorldSort::Heat => "heat",
            SearchWorldSort::Trust => "trust",
            SearchWorldSort::Shuffle => "shuffle",
            SearchWorldSort::Random => "random",
            SearchWorldSort::Favorites => "favorites",
            SearchWorldSort::ReportScore => "reportScore",
            SearchWorldSort::ReportCount => "reportCount",
            SearchWorldSort::PublicationDate => "publicationDate",
            SearchWorldSort::LabsPublicationDate => "labsPublicationDate",
            SearchWorldSort::Created => "created",
            SearchWorldSort::CreatedAt => "_created_at",
            SearchWorldSort::Updated => "updated",
            SearchWorldSort::UpdatedAt => "_updated_at",
            SearchWorldSort::Order => "order",
            SearchWorldSort::Relevance => "relevance",
            SearchWorldSort::Magic => "magic",
            SearchWorldSort::Name => "name",
        }
    }

    /// The orders the user may pick by name; other names give None.
    pub open spec fn spec_from_str(s: Seq<char>) -> Option<SearchWorldSort> {
        if s == "popularity"@ {
            Some(SearchWorldSort::Popularity)
        } else if s == "heat"@ {
            Some(SearchWorldSort::Heat)
        } else if s == "random"@ {
            Some(SearchWorldSort::Random)
        } else if s == "favorites"@ {
            Some(SearchWorldSort::Favorites)
        } else if s == "publicationDate"@ {
            Some(SearchWorldSort::PublicationDate)
        } else if s == "created"@ {
            Some(SearchWorldSort::Created)
        } else if s == "updated"@ {
            Some(SearchWorldSort::Updated)
        } else if s == "relevance"@ {
            Some(SearchWorldSort::Relevance)
        } else {
            None
        }
    }

    /// Picks an order by its user-facing name; see [`Self::spec_from_str`].
    pub fn from_str(s: &str) -> (r: Option<Self>)
        ensures
            r == Self::spec_from_str(s@),
    {
        let t = s.to_owned();
        if t == String::from_str("popularity") {
            Some(SearchWorldSort::Popularity)
        } else if t == String::from_str("heat") {
            Some(SearchWorldSort::Heat)
        } else if t == String::from_str("random") {
            Some(SearchWorldSort::Random)
        } else if t == String::from_str("favorites") {
            Some(SearchWorldSort::Favorites)
        } else if t == String::from_str("publicationDate") {
            Some(SearchWorldSort::PublicationDate)
        } else if t == String::from_str("created") {
            Some(SearchWorldSort::Created)
        } else if t == String::from_str("updated") {
            Some(SearchWorldSort::Updated)
        } else if t == String::from_str("relevance") {
            Some(SearchWorldSort::Relevance)
        } else {
            None
        }
    }
}

/// The filters of a world search; unset fields stay out of the query.
pub struct WorldSearchParameters {
    pub sort: Option<SearchWorldSort>,
    pub tag: Option<String>,
    pub notag: Option<String>,
    pub platform: Option<String>,
    pub search: Option<String>,
}

/// The query fragments a parameter set contributes, in wire order, each
/// value percent-encoded.
pub open spec fn spec_query_parts(p: &WorldSearchParameters) -> Seq<Seq<char>> {
    (match p.sort {
        Some(s) => seq!["sort="@ + url_encoded_of(s.wire_name())],
        None => Seq::<Seq<char>>::empty(),
    }) + (match p.tag {
        Some(ref t) => seq!["tag="@ + url_encoded_of(t@)],
        None => Seq::<Seq<char>>::empty(),
    }) + (match p.notag {
        Some(ref t) => seq!["notag="@ + url_encoded_of(t@)],
        None => Seq::<Seq<char>>::empty(),
    }) + (match p.platform {
        Some(ref t) => seq!["platform="@ + url_encoded_of(t@)],
        None => Seq::<Seq<char>>::empty(),
    }) + (match p.search {
        Some(ref t) => seq!["search="@ + url_encoded_of(t@)],
        None => Seq::<Seq<char>>::empty(),
    })
}

/// The fragments joined with `&` between them.
pub open spec fn spec_join_amp(parts: Seq<Seq<char>>) -> Seq<char>
    decreases parts.len(),
{
    if parts.len() == 0 {
        Seq::<char>::empty()
    } else if parts.len() == 1 {
        parts[0]
    } else {
        spec_join_amp(parts.drop_last()) + "&"@ + parts.last()
    }
}

impl WorldSearchParameters {
    /// The search's query string: its fragments in wire order, values
    /// percent-encoded, joined with `&`.
    pub fn to_query_string(&self) -> (r: String)
        ensures
            r@ == spec_join_amp(spec_query_parts(self)),
    {
        let mut parts: Vec<String> = Vec::new();
        if let Some(ref sort) = self.sort {
            parts.push(
                String::from_str("sort=").concat(
                    crate::trusted::url_encoded(sort.as_str()).as_str(),
                ),
            );
        }
        if let Some(ref tag) = self.tag {
            parts.push(
                String::from_str("tag=").concat(
                    crate::trusted::url_encoded(tag.as_str()).as_str(),
                ),
            );
        }
        if let Some(ref notag) = self.notag {
            parts.push(
                String::from_str("notag=").concat(
                    crate::trusted::url_encoded(notag.as_str()).as_str(),
                ),
            );
        }
        if let Some(ref platform) = self.platform {
            parts.push(
                String::from_str("platform=").concat(
                    crate::trusted::url_encoded(platform.as_str()).as_str(),
                ),
            );
        }
        if let Some(ref search) = self.search {
            parts.push(
                String::from_str("search=").concat(
                    crate::trusted::url_encoded(search.as_str()).as_str(),
                ),
            );
        }
        proof {
            assert(parts.deep_view() =~= spec_query_parts(self));
        }
        let mut out = String::new();
        let mut i: usize = 0;
        while i < parts.len()
            invariant
                0 <= i <= parts@.len(),
                out@ == spec_join_amp(parts.deep_view().subrange(0, i as int)),
                parts.deep_view().len() == parts@.len(),
        decreases parts@.len() - i,
        {
            if i > 0 {
                out.append("&");
            }
            out.append(parts[i].as_str());
            proof {
                let pre = parts.deep_view().subrange(0, i as int);
                let cur = parts.deep_view().subrange(0, i + 1);
                assert(cur.drop_last() =~= pre);
                assert(cur.last() == parts@[i as int]@);
                if i == 0 {
                    assert(out@ =~= cur[0]);
                }
            }
            i = i + 1;
        }
        proof {
            assert(parts.deep_view().subrange(0, parts@.len() as int) =~= parts.deep_view());
        }
        out
    }
}

/// Gathers search filters before building the parameter set.
pub struct WorldSearchParametersBuilder {
    pub sort: Option<SearchWorldSort>,
    pub tag: Option<String>,
    pub notag: Option<String>,
    pub platform: Option<String>,
    pub search: Option<String>,
}

impl WorldSearchParametersBuilder {
    /// A builder with no filter set.
    pub fn new() -> (r: Self)
        ensures
            r.sort is None,
            r.tag is None,
            r.notag is None,
            r.platform is None,
            r.search is None,
    {
        WorldSearchParametersBuilder {
            sort: None,
            tag: None,
            notag: None,
            platform: None,
            search: None,
        }
    }

    /// Sets the result order.
    pub fn sort(self, sort: SearchWorldSort) -> (r: Self)
        ensures
            r.sort == Some(sort),
            r.tag == self.tag,
            r.notag == self.notag,
            r.platform == self.platform,
            r.search == self.search,
    {
        WorldSearchParametersBuilder { sort: Some(sort), ..self }
    }

    /// Requires a tag.
    pub fn tag(self, tag: &str) -> (r: Self)
        ensures
            r.tag matches Some(t) && t@ == tag@,
            r.sort == self.sort,
            r.notag == self.notag,
            r.platform == self.platform,
            r.search == self.search,
    {
        WorldSearchParametersBuilder { tag: Some(tag.to_owned()), ..self }
    }

    /// Excludes a tag.
    pub fn notag(self, tag: &str) -> (r: Self)
        ensures
            r.notag matches Some(t) && t@ == tag@,
            r.sort == self.sort,
            r.tag == self.tag,
            r.platform == self.platform,
            r.search == self.search,
    {
        WorldSearchParametersBuilder { notag: Some(tag.to_owned()), ..self }
    }

    /// Restricts to a platform.
    pub fn platform(self, platform: &str) -> (r: Self)
        ensures
            r.platform matches Some(t) && t@ == platform@,
            r.sort == self.sort,
            r.tag == self.tag,
            r.notag == self.notag,
            r.search == self.search,
    {
        WorldSearchParametersBuilder { platform: Some(platform.to_owned()), ..self }
    }

    /// Sets the free-text search.
    pub fn search(self, search: &str) -> (r: Self)
        ensures
            r.search matches Some(t) && t@ == search@,
            r.sort == self.sort,
            r.tag == self.tag,
            r.notag == self.notag,
            r.platform == self.platform,
    {
        WorldSearchParametersBuilder { search: Some(search.to_owned()), ..self }
    }

    /// Builds the parameter set as gathered.
    pub fn build(self) -> (r: WorldSearchParameters)
        ensures
            r.sort == self.sort,
            r.tag == self.tag,
            r.notag == self.notag,
            r.platform == self.platform,
            r.search == self.search,
    {
        WorldSearchParameters {
            sort: self.sort,
            tag: self.tag,
            notag: self.notag,
            platform: self.platform,
            search: self.search,
        }
    }
}

} // verus!
