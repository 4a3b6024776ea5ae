//! The stored form of an index's settings.
use crate::diskann::error::DiskAnnError;
use crate::diskann::ids;
use crate::diskann::index::DiskAnnConfig;
use vstd::prelude::*;

verus! {

/// The numbers, by name, of the object that `serde_json` reads from a text, if it reads
/// anything from it. What is not an object has none.
pub uninterp spec fn numbers_of_json(json: Seq<char>) -> Option<Map<Seq<char>, u64>>;

/// `serde_json::from_str` for a `serde_json::Value`, and `as_u64` on what the value holds under
/// `name`: whether the text can be read, and which names have a number that is not negative and
/// fits 64 bits, is a function of the text.
#[verifier::external_body]
pub(crate) fn json_number(json: &str, name: &str) -> (number: Result<Option<u64>, serde_json::Error>)
    ensures
        number matches Ok(x) ==> (numbers_of_json(json@) matches Some(table) && x == (
        if table.contains_key(name@) {
            Some(table[name@])
        } else {
            None::<u64>
        })),
        number is Err ==> numbers_of_json(json@) is None,
{
    serde_json::from_str::<serde_json::Value>(json).map(|v| v[name].as_u64())
}

/// Whether the numbers have all that an index cannot do without.
pub open spec fn is_complete(table: Map<Seq<char>, u64>) -> bool {
    &&& table.contains_key("dim"@)
    &&& table.contains_key("max_degree"@)
    &&& table.contains_key("build_beam"@)
    &&& table.contains_key("search_beam"@)
}

/// The settings that such numbers stand for. What is not among them is as in a new index.
pub open spec fn settings_of(table: Map<Seq<char>, u64>, alpha: u32) -> DiskAnnConfig {
    DiskAnnConfig {
        dim: table["dim"@] as usize,
        max_degree: table["max_degree"@] as usize,
        build_beam: table["build_beam"@] as usize,
        search_beam: table["search_beam"@] as usize,
        alpha,
        pq_subspaces: if table.contains_key("pq_subspaces"@) {
            table["pq_subspaces"@] as usize
        } else {
            0
        },
        pq_iterations: 10,
    }
}

/// What reading settings gives, the numbers of the text being `table`: an error where the text
/// cannot be read, nothing where a number is missing that an index cannot do without, and
/// otherwise the settings.
pub open spec fn reads_as(
    table: Option<Map<Seq<char>, u64>>,
    alpha: u32,
    r: Option<Result<DiskAnnConfig, DiskAnnError>>,
) -> bool {
    match table {
        None => r matches Some(Err(e)) && e is Serialization,
        Some(numbers) => if is_complete(numbers) {
            r == Some(Ok::<DiskAnnConfig, DiskAnnError>(settings_of(numbers, alpha)))
        } else {
            r is None
        },
    }
}

/// The settings with these numbers, each given where there is one; `None` where a number is
/// missing that an index cannot do without.
pub fn settings_from(
    dim: Option<u64>,
    max_degree: Option<u64>,
    build_beam: Option<u64>,
    search_beam: Option<u64>,
    pq_subspaces: Option<u64>,
    alpha: u32,
) -> (config: Option<DiskAnnConfig>)
    ensures
        config is Some <==> dim is Some && max_degree is Some && build_beam is Some
            && search_beam is Some,
        config matches Some(c) ==> {
            &&& c.dim == (dim->0) as usize
            &&& c.max_degree == (max_degree->0) as usize
            &&& c.build_beam == (build_beam->0) as usize
            &&& c.search_beam == (search_beam->0) as usize
            &&& c.alpha == alpha
            &&& c.pq_subspaces == (match pq_subspaces {
                Some(x) => x as usize,
                None => 0,
            })
            &&& c.pq_iterations == 10
        },
{
    match (dim, max_degree, build_beam, search_beam) {
        (Some(dim), Some(max_degree), Some(build_beam), Some(search_beam)) => {
            let mut config = DiskAnnConfig::default();
            config.dim = dim as usize;
            config.max_degree = max_degree as usize;
            config.build_beam = build_beam as usize;
            config.search_beam = search_beam as usize;
            config.alpha = alpha;
            config.pq_subspaces = match pq_subspaces {
                Some(x) => x as usize,
                None => 0,
            };
            Some(config)
        },
        _ => None,
    }
}

fn number(json: &str, name: &str) -> (number: Result<Option<u64>, DiskAnnError>)
    ensures
        number matches Ok(x) ==> (numbers_of_json(json@) matches Some(table) && x == (
        if table.contains_key(name@) {
            Some(table[name@])
        } else {
            None::<u64>
        })),
        number matches Err(e) ==> e is Serialization && numbers_of_json(json@) is None,
{
    match json_number(json, name) {
        Ok(x) => Ok(x),
        Err(e) => Err(DiskAnnError::Serialization(ids::json_message(e))),
    }
}

/// The settings in a stored form. The pruning factor, which is no integer, is `alpha`.
pub fn read_settings(json: &str, alpha: u32) -> (r: Option<Result<DiskAnnConfig, DiskAnnError>>)
    ensures
        reads_as(numbers_of_json(json@), alpha, r),
{
    let numbers = (
        number(json, "dim"),
        number(json, "max_degree"),
        number(json, "build_beam"),
        number(json, "search_beam"),
        number(json, "pq_subspaces"),
    );
    match numbers {
        (Ok(dim), Ok(max_degree), Ok(build_beam), Ok(search_beam), Ok(pq_subspaces)) => {
            match settings_from(dim, max_degree, build_beam, search_beam, pq_subspaces, alpha) {
                Some(config) => Some(Ok(config)),
                None => None,
            }
        },
        (Err(e), _, _, _, _) => Some(Err(e)),
        (_, Err(e), _, _, _) => Some(Err(e)),
        (_, _, Err(e), _, _) => Some(Err(e)),
        (_, _, _, Err(e), _) => Some(Err(e)),
        (_, _, _, _, Err(e)) => Some(Err(e)),
    }
}

} // verus!
