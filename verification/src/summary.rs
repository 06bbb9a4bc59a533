//! The summary index: all ranked servers aggregated into a nested
//! country -> city -> server-list structure, and its deterministic
//! JSON text. Countries and cities appear in first-occurrence order
//! of the ranked input; each city records the distance of its last
//! ranked server and every (name, load) pair in ranked order.

use vstd::prelude::*;
use vstd::string::StrSliceExecFns;
use vstd::string::StringExecFns;
use crate::model::{models, Server, ServerModel};
use crate::strutil::{spec_decimal, string_from_chars, u64_to_string};

verus! {

/// One city of the summary, with its server list in ranked order.
pub struct CityEntry {
    pub name: String,
    /// Distance of the city's most recently aggregated server.
    pub distance_km: u64,
    /// Every ranked server of the city: name and load, in rank order.
    pub servers: Vec<(String, u64)>,
}

/// One country of the summary, with its cities in first-seen order.
pub struct CountryEntry {
    pub name: String,
    pub cities: Vec<CityEntry>,
}

/// The whole summary, countries in first-seen order.
pub struct SummaryIndex {
    pub countries: Vec<CountryEntry>,
}

/// The mathematical view of a summary city.
pub struct CityModel {
    pub name: Seq<char>,
    pub distance_km: int,
    pub servers: Seq<(Seq<char>, int)>,
}

/// The mathematical view of a summary country.
pub struct CountryModel {
    pub name: Seq<char>,
    pub cities: Seq<CityModel>,
}

impl View for CityEntry {
    type V = CityModel;

    open spec fn view(&self) -> CityModel {
        CityModel {
            name: self.name@,
            distance_km: self.distance_km as int,
            servers: self.servers@.map_values(|p: (String, u64)| (p.0@, p.1 as int)),
        }
    }
}

impl View for CountryEntry {
    type V = CountryModel;

    open spec fn view(&self) -> CountryModel {
        CountryModel { name: self.name@, cities: self.cities@.map_values(|c: CityEntry| c@) }
    }
}

impl View for SummaryIndex {
    type V = Seq<CountryModel>;

    open spec fn view(&self) -> Seq<CountryModel> {
        self.countries@.map_values(|c: CountryEntry| c@)
    }
}

/// The first country of that name, if any.
pub open spec fn spec_find_country(cs: Seq<CountryModel>, name: Seq<char>) -> Option<int>
    decreases cs.len(),
{
    if cs.len() == 0 {
        None
    } else if cs[0].name == name {
        Some(0)
    } else {
        match spec_find_country(cs.drop_first(), name) {
            Some(i) => Some(i + 1),
            None => None,
        }
    }
}

/// The first city of that name, if any.
pub open spec fn spec_find_city(cs: Seq<CityModel>, name: Seq<char>) -> Option<int>
    decreases cs.len(),
{
    if cs.len() == 0 {
        None
    } else if cs[0].name == name {
        Some(0)
    } else {
        match spec_find_city(cs.drop_first(), name) {
            Some(i) => Some(i + 1),
            None => None,
        }
    }
}

/// The city one ranked server starts.
pub open spec fn spec_new_city(m: ServerModel) -> CityModel {
    CityModel { name: m.city, distance_km: m.distance_km, servers: seq![(m.name, m.load)] }
}

/// A ranked server joining its existing city: the distance is
/// refreshed, the (name, load) pair appended.
pub open spec fn spec_join_city(c: CityModel, m: ServerModel) -> CityModel {
    CityModel {
        name: c.name,
        distance_km: m.distance_km,
        servers: c.servers.push((m.name, m.load)),
    }
}

/// Aggregating one ranked server into the summary.
pub open spec fn spec_step(cs: Seq<CountryModel>, m: ServerModel) -> Seq<CountryModel> {
    match spec_find_country(cs, m.country) {
        None => cs.push(
            CountryModel { name: m.country, cities: seq![spec_new_city(m)] },
        ),
        Some(ci) => {
            let c = cs[ci];
            let cities2 = match spec_find_city(c.cities, m.city) {
                None => c.cities.push(spec_new_city(m)),
                Some(cj) => c.cities.update(cj, spec_join_city(c.cities[cj], m)),
            };
            cs.update(ci, CountryModel { name: c.name, cities: cities2 })
        },
    }
}

/// The summary of a ranked sequence: every server aggregated in
/// order.
pub open spec fn spec_build(s: Seq<ServerModel>) -> Seq<CountryModel>
    decreases s.len(),
{
    if s.len() == 0 {
        Seq::empty()
    } else {
        spec_step(spec_build(s.drop_last()), s.last())
    }
}

fn find_country_idx(cs: &Vec<CountryEntry>, name: &String) -> (r: Option<usize>)
    ensures
        ({
            let m = cs@.map_values(|c: CountryEntry| c@);
            match r {
                Some(i) => i < cs@.len() && spec_find_country(m, name@) == Some(i as int),
                None => spec_find_country(m, name@) is None,
            }
        }),
{
    let ghost m = cs@.map_values(|c: CountryEntry| c@);
    proof {
        assert(m.skip(0) =~= m);
    }
    let mut i: usize = 0;
    while i < cs.len()
        invariant
            i <= cs@.len(),
            m == cs@.map_values(|c: CountryEntry| c@),
            spec_find_country(m, name@) == (match spec_find_country(m.skip(i as int), name@) {
                Some(p) => Some(p + i),
                None => None,
            }),
        decreases cs@.len() - i,
    {
        proof {
            assert(m.skip(i as int)[0] == m[i as int]);
        }
        if cs[i].name == *name {
            return Some(i);
        }
        proof {
            assert(m.skip(i as int).drop_first() =~= m.skip(i + 1));
        }
        i = i + 1;
    }
    proof {
        assert(m.skip(cs@.len() as int) =~= Seq::<CountryModel>::empty());
    }
    None
}

fn find_city_idx(cs: &Vec<CityEntry>, name: &String) -> (r: Option<usize>)
    ensures
        ({
            let m = cs@.map_values(|c: CityEntry| c@);
            match r {
                Some(i) => i < cs@.len() && spec_find_city(m, name@) == Some(i as int),
                None => spec_find_city(m, name@) is None,
            }
        }),
{
    let ghost m = cs@.map_values(|c: CityEntry| c@);
    proof {
        assert(m.skip(0) =~= m);
    }
    let mut i: usize = 0;
    while i < cs.len()
        invariant
            i <= cs@.len(),
            m == cs@.map_values(|c: CityEntry| c@),
            spec_find_city(m, name@) == (match spec_find_city(m.skip(i as int), name@) {
                Some(p) => Some(p + i),
                None => None,
            }),
        decreases cs@.len() - i,
    {
        proof {
            assert(m.skip(i as int)[0] == m[i as int]);
        }
        if cs[i].name == *name {
            return Some(i);
        }
        proof {
            assert(m.skip(i as int).drop_first() =~= m.skip(i + 1));
        }
        i = i + 1;
    }
    proof {
        assert(m.skip(cs@.len() as int) =~= Seq::<CityModel>::empty());
    }
    None
}

/// Aggregate the ranked servers, in order, into the nested
/// country -> city -> [(name, load)] summary.
pub fn build(ranked: &Vec<Server>) -> (idx: SummaryIndex)
    requires
        forall|i: int| 0 <= i < ranked@.len() ==> (#[trigger] models(ranked@)[i]).wf(),
    ensures
        idx@ == spec_build(models(ranked@)),
{
    let ghost all = models(ranked@);
    let mut out: Vec<CountryEntry> = Vec::new();
    let mut i: usize = 0;
    while i < ranked.len()
        invariant
            i <= ranked@.len(),
            all == models(ranked@),
            forall|k: int| 0 <= k < ranked@.len() ==> (#[trigger] models(ranked@)[k]).wf(),
            out@.map_values(|c: CountryEntry| c@) == spec_build(all.take(i as int)),
        decreases ranked@.len() - i,
    {
        proof {
            assert(all.take(i + 1).drop_last() =~= all.take(i as int));
            assert(all.take(i + 1).last() == all[i as int]);
            assert(models(ranked@)[i as int] == ranked@[i as int]@);
        }
        let m = &ranked[i];
        let ghost before = out@.map_values(|c: CountryEntry| c@);
        match find_country_idx(&out, &m.country) {
            None => {
                let mut servers: Vec<(String, u64)> = Vec::new();
                servers.push((m.name.clone(), m.load as u64));
                let city = CityEntry { name: m.city.clone(), distance_km: m.distance_km, servers };
                let mut cities: Vec<CityEntry> = Vec::new();
                cities.push(city);
                proof {
                    assert(cities@[0]@.servers =~= seq![
                        (all[i as int].name, all[i as int].load),
                    ]);
                    assert(cities@[0]@ == spec_new_city(all[i as int]));
                }
                out.push(CountryEntry { name: m.country.clone(), cities });
                proof {
                    let last = out@.last();
                    assert(last@.cities =~= Seq::<CityModel>::empty().push(
                        spec_new_city(all[i as int]),
                    ));
                    assert(last@ == CountryModel {
                        name: all[i as int].country,
                        cities: seq![spec_new_city(all[i as int])],
                    });
                    assert(out@.map_values(|c: CountryEntry| c@) =~= spec_step(
                        before,
                        all[i as int],
                    ));
                }
            },
            Some(ci) => {
                let mut country = out.remove(ci);
                let ghost old_country = country@;
                match find_city_idx(&country.cities, &m.city) {
                    None => {
                        let mut servers: Vec<(String, u64)> = Vec::new();
                        servers.push((m.name.clone(), m.load as u64));
                        let city = CityEntry {
                            name: m.city.clone(),
                            distance_km: m.distance_km,
                            servers,
                        };
                        proof {
                            assert(city@.servers =~= seq![
                                (all[i as int].name, all[i as int].load),
                            ]);
                            assert(city@ == spec_new_city(all[i as int]));
                        }
                        country.cities.push(city);
                        proof {
                            assert(country@.cities =~= old_country.cities.push(
                                spec_new_city(all[i as int]),
                            ));
                        }
                    },
                    Some(cj) => {
                        let mut city = country.cities.remove(cj);
                        let ghost old_city = city@;
                        city.distance_km = m.distance_km;
                        city.servers.push((m.name.clone(), m.load as u64));
                        proof {
                            assert(city@.servers =~= old_city.servers.push(
                                (all[i as int].name, all[i as int].load),
                            ));
                            assert(city@ == spec_join_city(old_city, all[i as int]));
                        }
                        country.cities.insert(cj, city);
                        proof {
                            assert(country@.cities =~= old_country.cities.update(
                                cj as int,
                                spec_join_city(old_city, all[i as int]),
                            ));
                        }
                    },
                }
                out.insert(ci, country);
                proof {
                    assert(country@.name == before[ci as int].name);
                    assert(country@ == CountryModel {
                        name: before[ci as int].name,
                        cities: country@.cities,
                    });
                    assert(out@.map_values(|c: CountryEntry| c@) =~= before.update(
                        ci as int,
                        country@,
                    ));
                    assert(out@.map_values(|c: CountryEntry| c@) =~= spec_step(
                        before,
                        all[i as int],
                    ));
                }
            },
        }
        i = i + 1;
    }
    proof {
        assert(all.take(all.len() as int) =~= all);
    }
    let idx = SummaryIndex { countries: out };
    idx
}

/// The hexadecimal digit character of a value below sixteen.
pub open spec fn spec_hex_digit_char(d: int) -> char {
    if d == 0 {
        '0'
    } else if d == 1 {
        '1'
    } else if d == 2 {
        '2'
    } else if d == 3 {
        '3'
    } else if d == 4 {
        '4'
    } else if d == 5 {
        '5'
    } else if d == 6 {
        '6'
    } else if d == 7 {
        '7'
    } else if d == 8 {
        '8'
    } else if d == 9 {
        '9'
    } else if d == 10 {
        'a'
    } else if d == 11 {
        'b'
    } else if d == 12 {
        'c'
    } else if d == 13 {
        'd'
    } else if d == 14 {
        'e'
    } else {
        'f'
    }
}

/// How one character appears inside a JSON string: quotes and
/// backslashes are escaped, control characters become `\u00XX`, and
/// everything else stands as itself.
pub open spec fn spec_esc_char(c: char) -> Seq<char> {
    if c == '"' {
        seq!['\\', '"']
    } else if c == '\\' {
        seq!['\\', '\\']
    } else if (c as u32) < 32 {
        seq!['\\', 'u', '0', '0', spec_hex_digit_char(c as int / 16), spec_hex_digit_char(
            c as int % 16,
        )]
    } else {
        seq![c]
    }
}

/// A string's characters, each as it appears inside a JSON string.
pub open spec fn spec_json_escape(s: Seq<char>) -> Seq<char>
    decreases s.len(),
{
    if s.len() == 0 {
        Seq::empty()
    } else {
        spec_json_escape(s.drop_last()) + spec_esc_char(s.last())
    }
}

fn hex_digit_char(d: u32) -> (c: char)
    requires
        d < 16,
    ensures
        c == spec_hex_digit_char(d as int),
{
    if d == 0 {
        '0'
    } else if d == 1 {
        '1'
    } else if d == 2 {
        '2'
    } else if d == 3 {
        '3'
    } else if d == 4 {
        '4'
    } else if d == 5 {
        '5'
    } else if d == 6 {
        '6'
    } else if d == 7 {
        '7'
    } else if d == 8 {
        '8'
    } else if d == 9 {
        '9'
    } else if d == 10 {
        'a'
    } else if d == 11 {
        'b'
    } else if d == 12 {
        'c'
    } else if d == 13 {
        'd'
    } else if d == 14 {
        'e'
    } else {
        'f'
    }
}

/// Escape a name for use inside a JSON string literal.
pub fn json_escape(s: &str) -> (r: String)
    ensures
        r@ == spec_json_escape(s@),
{
    let n = s.unicode_len();
    let mut out: Vec<char> = Vec::new();
    let mut i: usize = 0;
    while i < n
        invariant
            i <= n,
            n == s@.len(),
            out@ == spec_json_escape(s@.take(i as int)),
        decreases n - i,
    {
        proof {
            assert(s@.take(i + 1).drop_last() =~= s@.take(i as int));
            assert(s@.take(i + 1).last() == s@[i as int]);
        }
        let c = s.get_char(i);
        let u = c as u32;
        if c == '"' {
            out.push('\\');
            out.push('"');
        } else if c == '\\' {
            out.push('\\');
            out.push('\\');
        } else if u < 32 {
            out.push('\\');
            out.push('u');
            out.push('0');
            out.push('0');
            out.push(hex_digit_char(u / 16));
            out.push(hex_digit_char(u % 16));
        } else {
            out.push(c);
        }
        proof {
            assert(out@ =~= spec_json_escape(s@.take(i + 1)));
        }
        i = i + 1;
    }
    proof {
        assert(s@.take(n as int) =~= s@);
    }
    string_from_chars(&out)
}

/// One server pair as JSON: `["name",load]`.
pub open spec fn spec_ser_pair(p: (Seq<char>, int)) -> Seq<char> {
    "[\""@ + spec_json_escape(p.0) + "\","@ + spec_decimal(p.1 as nat) + "]"@
}

/// A server list as JSON elements joined by commas.
pub open spec fn spec_ser_pairs(ps: Seq<(Seq<char>, int)>) -> Seq<char>
    decreases ps.len(),
{
    if ps.len() == 0 {
        Seq::empty()
    } else if ps.len() == 1 {
        spec_ser_pair(ps[0])
    } else {
        spec_ser_pairs(ps.drop_last()) + ","@ + spec_ser_pair(ps.last())
    }
}

/// One city as a JSON member: `"name":{"distance":D,"servers":[...]}`.
pub open spec fn spec_ser_city(c: CityModel) -> Seq<char> {
    "\""@ + spec_json_escape(c.name) + "\":{\"distance\":"@ + spec_decimal(c.distance_km as nat)
        + ",\"servers\":["@ + spec_ser_pairs(c.servers) + "]}"@
}

/// A country's cities as JSON members joined by commas.
pub open spec fn spec_ser_cities(cs: Seq<CityModel>) -> Seq<char>
    decreases cs.len(),
{
    if cs.len() == 0 {
        Seq::empty()
    } else if cs.len() == 1 {
        spec_ser_city(cs[0])
    } else {
        spec_ser_cities(cs.drop_last()) + ","@ + spec_ser_city(cs.last())
    }
}

/// One country as a JSON member: `"name":{...cities...}`.
pub open spec fn spec_ser_country(c: CountryModel) -> Seq<char> {
    "\""@ + spec_json_escape(c.name) + "\":{"@ + spec_ser_cities(c.cities) + "}"@
}

/// The countries as JSON members joined by commas.
pub open spec fn spec_ser_countries(cs: Seq<CountryModel>) -> Seq<char>
    decreases cs.len(),
{
    if cs.len() == 0 {
        Seq::empty()
    } else if cs.len() == 1 {
        spec_ser_country(cs[0])
    } else {
        spec_ser_countries(cs.drop_last()) + ","@ + spec_ser_country(cs.last())
    }
}

/// The whole summary as one JSON object.
pub open spec fn spec_serialize(cs: Seq<CountryModel>) -> Seq<char> {
    "{"@ + spec_ser_countries(cs) + "}"@
}

fn ser_pairs(ps: &Vec<(String, u64)>) -> (r: String)
    ensures
        r@ == spec_ser_pairs(ps@.map_values(|p: (String, u64)| (p.0@, p.1 as int))),
{
    let ghost m = ps@.map_values(|p: (String, u64)| (p.0@, p.1 as int));
    let mut out = String::new();
    let mut i: usize = 0;
    while i < ps.len()
        invariant
            i <= ps@.len(),
            m == ps@.map_values(|p: (String, u64)| (p.0@, p.1 as int)),
            out@ == spec_ser_pairs(m.take(i as int)),
        decreases ps@.len() - i,
    {
        proof {
            assert(m.take(i + 1).drop_last() =~= m.take(i as int));
            assert(m.take(i + 1).last() == m[i as int]);
        }
        if i > 0 {
            out.append(",");
        }
        out.append("[\"");
        let esc = json_escape(ps[i].0.as_str());
        out.append(esc.as_str());
        out.append("\",");
        let num = u64_to_string(ps[i].1);
        out.append(num.as_str());
        out.append("]");
        proof {
            if i == 0 {
                assert(out@ =~= spec_ser_pairs(m.take(1)));
            } else {
                assert(out@ =~= spec_ser_pairs(m.take(i + 1)));
            }
        }
        i = i + 1;
    }
    proof {
        assert(m.take(ps@.len() as int) =~= m);
    }
    out
}

fn ser_city(c: &CityEntry) -> (r: String)
    ensures
        r@ == spec_ser_city(c@),
{
    let mut out = String::new();
    out.append("\"");
    let esc = json_escape(c.name.as_str());
    out.append(esc.as_str());
    out.append("\":{\"distance\":");
    let num = u64_to_string(c.distance_km);
    out.append(num.as_str());
    out.append(",\"servers\":[");
    let pairs = ser_pairs(&c.servers);
    out.append(pairs.as_str());
    out.append("]}");
    proof {
        assert(out@ =~= spec_ser_city(c@));
    }
    out
}

fn ser_country(c: &CountryEntry) -> (r: String)
    ensures
        r@ == spec_ser_country(c@),
{
    let ghost m = c.cities@.map_values(|x: CityEntry| x@);
    let mut body = String::new();
    let mut i: usize = 0;
    while i < c.cities.len()
        invariant
            i <= c.cities@.len(),
            m == c.cities@.map_values(|x: CityEntry| x@),
            body@ == spec_ser_cities(m.take(i as int)),
        decreases c.cities@.len() - i,
    {
        proof {
            assert(m.take(i + 1).drop_last() =~= m.take(i as int));
            assert(m.take(i + 1).last() == m[i as int]);
        }
        if i > 0 {
            body.append(",");
        }
        let city = ser_city(&c.cities[i]);
        body.append(city.as_str());
        proof {
            if i == 0 {
                assert(body@ =~= spec_ser_cities(m.take(1)));
            } else {
                assert(body@ =~= spec_ser_cities(m.take(i + 1)));
            }
        }
        i = i + 1;
    }
    proof {
        assert(m.take(c.cities@.len() as int) =~= m);
    }
    let mut out = String::new();
    out.append("\"");
    let esc = json_escape(c.name.as_str());
    out.append(esc.as_str());
    out.append("\":{");
    out.append(body.as_str());
    out.append("}");
    proof {
        assert(out@ =~= spec_ser_country(c@));
    }
    out
}

/// The deterministic JSON text of the summary: countries and cities
/// in first-seen order, each city holding its distance and its
/// `[name, load]` pairs in ranked order.
pub fn serialize(idx: &SummaryIndex) -> (r: String)
    ensures
        r@ == spec_serialize(idx@),
{
    let ghost m = idx.countries@.map_values(|c: CountryEntry| c@);
    let mut body = String::new();
    let mut i: usize = 0;
    while i < idx.countries.len()
        invariant
            i <= idx.countries@.len(),
            m == idx.countries@.map_values(|c: CountryEntry| c@),
            body@ == spec_ser_countries(m.take(i as int)),
        decreases idx.countries@.len() - i,
    {
        proof {
            assert(m.take(i + 1).drop_last() =~= m.take(i as int));
            assert(m.take(i + 1).last() == m[i as int]);
        }
        if i > 0 {
            body.append(",");
        }
        let country = ser_country(&idx.countries[i]);
        body.append(country.as_str());
        proof {
            if i == 0 {
                assert(body@ =~= spec_ser_countries(m.take(1)));
            } else {
                assert(body@ =~= spec_ser_countries(m.take(i + 1)));
            }
        }
        i = i + 1;
    }
    proof {
        assert(m.take(idx.countries@.len() as int) =~= m);
    }
    let mut out = String::new();
    out.append("{");
    out.append(body.as_str());
    out.append("}");
    proof {
        assert(out@ =~= spec_serialize(idx@));
    }
    out
}


/// A found country index lies inside the sequence.
proof fn lemma_find_country_in_range(cs: Seq<CountryModel>, name: Seq<char>)
    requires
        spec_find_country(cs, name) is Some,
    ensures
        0 <= spec_find_country(cs, name)->0 < cs.len(),
    decreases cs.len(),
{
    if cs.len() > 0 && !(cs[0].name == name) {
        lemma_find_country_in_range(cs.drop_first(), name);
    }
}

/// A found city index lies inside the sequence.
proof fn lemma_find_city_in_range(cs: Seq<CityModel>, name: Seq<char>)
    requires
        spec_find_city(cs, name) is Some,
    ensures
        0 <= spec_find_city(cs, name)->0 < cs.len(),
    decreases cs.len(),
{
    if cs.len() > 0 && !(cs[0].name == name) {
        lemma_find_city_in_range(cs.drop_first(), name);
    }
}

/// Every per-city server list of the summary has ascending loads.
pub open spec fn spec_city_lists_sorted(cs: Seq<CountryModel>) -> bool {
    forall|ci: int, cj: int, a: int, b: int|
        0 <= ci < cs.len() && 0 <= cj < cs[ci].cities.len() && 0 <= a < b
            < cs[ci].cities[cj].servers.len() ==> (#[trigger] cs[ci].cities[cj].servers[a]).1
            <= (#[trigger] cs[ci].cities[cj].servers[b]).1
}

/// Every server load of the summary is at most `bound`.
pub open spec fn spec_loads_bounded(cs: Seq<CountryModel>, bound: int) -> bool {
    forall|ci: int, cj: int, a: int|
        0 <= ci < cs.len() && 0 <= cj < cs[ci].cities.len() && 0 <= a
            < cs[ci].cities[cj].servers.len() ==> (#[trigger] cs[ci].cities[cj].servers[a]).1
            <= bound
}

/// The summary of a load-sorted ranking keeps each city's server list
/// sorted by load ascending, and no recorded load exceeds the last
/// (heaviest) ranked entry's load.
pub proof fn lemma_build_city_loads_sorted(s: Seq<ServerModel>)
    requires
        crate::rank::spec_sorted(s),
    ensures
        spec_city_lists_sorted(spec_build(s)),
        s.len() > 0 ==> spec_loads_bounded(spec_build(s), s.last().load),
    decreases s.len(),
{
    if s.len() > 0 {
        let dl = s.drop_last();
        let m = s.last();
        assert(forall|i: int| 0 <= i < dl.len() ==> s[i] == #[trigger] dl[i]);
        assert(crate::rank::spec_sorted(dl)) by {
            assert(forall|i: int, j: int|
                0 <= i < j < dl.len() ==> (#[trigger] dl[i]).key_le(#[trigger] dl[j]));
        }
        lemma_build_city_loads_sorted(dl);
        let cs = spec_build(dl);
        assert(spec_loads_bounded(cs, m.load)) by {
            if dl.len() > 0 {
                assert(dl.last() == s[s.len() - 2]);
                assert(s[s.len() - 2].key_le(m));
            }
        }
        let out = spec_build(s);
        assert(out == spec_step(cs, m));
        match spec_find_country(cs, m.country) {
            None => {
                assert(forall|ci: int| 0 <= ci < cs.len() ==> out[ci] == #[trigger] cs[ci]);
                assert(out[out.len() - 1].cities =~= seq![spec_new_city(m)]);
                assert(spec_city_lists_sorted(out));
                assert(spec_loads_bounded(out, m.load));
            },
            Some(ci) => {
                lemma_find_country_in_range(cs, m.country);
                let c = cs[ci];
                match spec_find_city(c.cities, m.city) {
                    None => {
                        assert(forall|t: int|
                            0 <= t < cs.len() && t != ci ==> out[t] == #[trigger] cs[t]);
                        assert(forall|cj: int|
                            0 <= cj < c.cities.len() ==> out[ci].cities[cj] == #[trigger] c.cities[cj]);
                        assert(out[ci].cities[c.cities.len() as int] == spec_new_city(m));
                        assert(spec_city_lists_sorted(out));
                        assert(spec_loads_bounded(out, m.load));
                    },
                    Some(cj) => {
                        lemma_find_city_in_range(c.cities, m.city);
                        let old_city = c.cities[cj];
                        let new_city = spec_join_city(old_city, m);
                        assert(forall|t: int|
                            0 <= t < cs.len() && t != ci ==> out[t] == #[trigger] cs[t]);
                        assert(forall|t: int|
                            0 <= t < c.cities.len() && t != cj ==> out[ci].cities[t]
                                == #[trigger] c.cities[t]);
                        assert(out[ci].cities[cj] == new_city);
                        assert(forall|a: int|
                            0 <= a < old_city.servers.len() ==> (#[trigger] new_city.servers[a])
                                == old_city.servers[a]);
                        assert(new_city.servers[new_city.servers.len() - 1] == (m.name, m.load));
                        assert(spec_city_lists_sorted(out));
                        assert(spec_loads_bounded(out, m.load));
                    },
                }
            },
        }
    }
}

} // verus!
