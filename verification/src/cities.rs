//! City records, the in-memory city store, and its load and query
//! operations.
//!
//! A data source is a comma-separated table with a header line and the
//! columns Country, City, AccentCity, Region, Population, Latitude,
//! Longitude. Coordinates are held in microdegrees (millionths of a degree)
//! so that the ordering logic works on exact integers; a population is
//! `None` when the source field was empty. Fields are taken verbatim
//! between commas; the format has no quoting.

use vstd::prelude::*;

use crate::text::{
    coord_micro, lower, lower_char, lower_seq, parse_coord, parse_u64, parse_u64_spec, split_on,
    split_str,
};

verus! {

/// The coordinate that drives the descending order of a query.
#[derive(Debug, Clone, Copy, PartialEq, Eq, Structural)]
pub enum Direction {
    Lat,
    Lon,
}

/// Mathematical image of one city record.
pub ghost struct CityModel {
    pub country: Seq<char>,
    pub city: Seq<char>,
    pub accent_city: Seq<char>,
    pub region: Seq<char>,
    pub population: Option<u64>,
    pub latitude: i64,
    pub longitude: i64,
}

impl CityModel {
    /// Composite key: case-folded city name, a slash, case-folded country
    /// code.
    pub open spec fn key(self) -> Seq<char> {
        lower_seq(self.city) + seq!['/'] + lower_seq(self.country)
    }

    /// The coordinate selected by `d`.
    pub open spec fn axis(self, d: Direction) -> i64 {
        match d {
            Direction::Lat => self.latitude,
            Direction::Lon => self.longitude,
        }
    }
}

/// One populated place, as decoded from one input row.
#[derive(Debug, PartialEq)]
pub struct City {
    country: String,
    city: String,
    accent_city: String,
    region: String,
    population: Option<u64>,
    latitude: i64,
    longitude: i64,
}

impl View for City {
    type V = CityModel;

    closed spec fn view(&self) -> CityModel {
        CityModel {
            country: self.country@,
            city: self.city@,
            accent_city: self.accent_city@,
            region: self.region@,
            population: self.population,
            latitude: self.latitude,
            longitude: self.longitude,
        }
    }
}

impl Clone for City {
    fn clone(&self) -> (c: Self)
        ensures
            c@ == self@,
    {
        City {
            country: self.country.clone(),
            city: self.city.clone(),
            accent_city: self.accent_city.clone(),
            region: self.region.clone(),
            population: self.population,
            latitude: self.latitude,
            longitude: self.longitude,
        }
    }
}

impl City {
    /// Builds a record from already-decoded field values.
    pub fn new(
        country: String,
        city: String,
        accent_city: String,
        region: String,
        population: Option<u64>,
        latitude: i64,
        longitude: i64,
    ) -> (c: City)
        ensures
            c@ == (CityModel {
                country: country@,
                city: city@,
                accent_city: accent_city@,
                region: region@,
                population,
                latitude,
                longitude,
            }),
    {
        City { country, city, accent_city, region, population, latitude, longitude }
    }

    /// The raw composite name: city name, a slash, country code, with the
    /// original casing kept.
    pub fn id(&self) -> (r: String)
        ensures
            r@ == self@.city + seq!['/'] + self@.country,
    {
        proof {
            reveal_strlit("/");
            assert("/"@ =~= seq!['/']);
        }
        let mut r = String::from_str(self.city.as_str());
        r.append("/");
        r.append(self.country.as_str());
        r
    }

    /// The display (accented) name.
    pub fn label(&self) -> (r: &String)
        ensures
            r@ == self@.accent_city,
    {
        &self.accent_city
    }

    /// Latitude in microdegrees.
    pub fn lat(&self) -> (r: i64)
        ensures
            r == self@.latitude,
    {
        self.latitude
    }

    /// Longitude in microdegrees.
    pub fn lon(&self) -> (r: i64)
        ensures
            r == self@.longitude,
    {
        self.longitude
    }

    /// Population count, `None` when the source row had none.
    pub fn population(&self) -> (r: Option<u64>)
        ensures
            r == self@.population,
    {
        self.population
    }

    /// Country code as read from the row.
    pub fn country(&self) -> (r: &String)
        ensures
            r@ == self@.country,
    {
        &self.country
    }

    /// City name as read from the row.
    pub fn city_name(&self) -> (r: &String)
        ensures
            r@ == self@.city,
    {
        &self.city
    }

    /// Region code as read from the row.
    pub fn region(&self) -> (r: &String)
        ensures
            r@ == self@.region,
    {
        &self.region
    }
}

/// A row decodes when it has exactly seven comma-separated fields, its
/// population field is empty or an unsigned numeral, and both coordinates
/// are decimal numerals in range.
pub open spec fn row_decodes(line: Seq<char>) -> bool {
    let f = split_on(line, ',');
    &&& f.len() == 7
    &&& (f[4].len() == 0 || parse_u64_spec(f[4]) is Some)
    &&& coord_micro(f[5]) is Some
    &&& coord_micro(f[6]) is Some
}

/// A decodable row whose population field is empty: filtered out, counted as
/// ignored.
pub open spec fn row_ignored(line: Seq<char>) -> bool {
    row_decodes(line) && split_on(line, ',')[4].len() == 0
}

/// A decodable row with a population: stored, counted as accepted.
pub open spec fn row_accepted(line: Seq<char>) -> bool {
    row_decodes(line) && split_on(line, ',')[4].len() != 0
}

/// The record an accepted row decodes to.
pub open spec fn row_city(line: Seq<char>) -> CityModel {
    let f = split_on(line, ',');
    CityModel {
        country: f[0],
        city: f[1],
        accent_city: f[2],
        region: f[3],
        population: if f[4].len() == 0 {
            None
        } else {
            Some(parse_u64_spec(f[4])->0)
        },
        latitude: coord_micro(f[5])->0,
        longitude: coord_micro(f[6])->0,
    }
}

/// Outcome of decoding one data row.
pub enum RowResult {
    Accepted(City),
    Ignored,
    Rejected,
}

/// Decodes one data row into a record, or classifies it as ignored (no
/// population) or rejected (malformed).
pub fn decode_row(line: &str) -> (r: RowResult)
    ensures
        r is Rejected <==> !row_decodes(line@),
        r is Ignored <==> row_ignored(line@),
        r is Accepted <==> row_accepted(line@),
        r matches RowResult::Accepted(c) ==> c@ == row_city(line@),
{
    let fields = split_str(line, ',');
    proof {
        assert(fields@.map_values(|t: &str| t@).len() == fields@.len());
    }
    if fields.len() != 7 {
        return RowResult::Rejected;
    }
    let pop_field = fields[4];
    let population: Option<u64> = if pop_field.unicode_len() == 0 {
        None
    } else {
        match parse_u64(pop_field) {
            Some(p) => Some(p),
            None => {
                return RowResult::Rejected;
            },
        }
    };
    let latitude = match parse_coord(fields[5]) {
        Some(v) => v,
        None => {
            return RowResult::Rejected;
        },
    };
    let longitude = match parse_coord(fields[6]) {
        Some(v) => v,
        None => {
            return RowResult::Rejected;
        },
    };
    if population.is_none() {
        return RowResult::Ignored;
    }
    RowResult::Accepted(
        City::new(
            fields[0].to_owned(),
            fields[1].to_owned(),
            fields[2].to_owned(),
            fields[3].to_owned(),
            population,
            latitude,
            longitude,
        ),
    )
}

/// Case folding distributes over concatenation.
pub proof fn lemma_lower_seq_add(a: Seq<char>, b: Seq<char>)
    ensures
        lower_seq(a + b) == lower_seq(a) + lower_seq(b),
{
    assert(lower_seq(a + b) =~= lower_seq(a) + lower_seq(b));
}

/// Whether the case-folded query name equals the record's composite key.
fn name_matches(name: &str, c: &City) -> (r: bool)
    ensures
        r == (lower_seq(name@) == c@.key()),
{
    let nlen = name.unicode_len();
    let clen = c.city.unicode_len();
    let klen = c.country.unicode_len();
    if nlen <= clen || nlen - clen - 1 != klen {
        proof {
            assert(c@.key().len() == clen + 1 + klen);
            assert(lower_seq(name@).len() == nlen);
        }
        return false;
    }
    let mut j: usize = 0;
    while j < clen
        invariant
            nlen == name@.len(),
            clen == c.city@.len(),
            klen == c.country@.len(),
            nlen == clen + 1 + klen,
            0 <= j <= clen,
            forall|i: int| 0 <= i < j ==> lower_char(#[trigger] name@[i]) == lower_char(
                c.city@[i],
            ),
        decreases clen - j,
    {
        if lower(name.get_char(j)) != lower(c.city.as_str().get_char(j)) {
            proof {
                assert(c@.key()[j as int] == lower_char(c.city@[j as int]));
                assert(lower_seq(name@)[j as int] == lower_char(name@[j as int]));
            }
            return false;
        }
        j += 1;
    }
    if lower(name.get_char(clen)) != '/' {
        proof {
            assert(c@.key()[clen as int] == '/');
            assert(lower_seq(name@)[clen as int] == lower_char(name@[clen as int]));
        }
        return false;
    }
    let mut t: usize = 0;
    while t < klen
        invariant
            nlen == name@.len(),
            clen == c.city@.len(),
            klen == c.country@.len(),
            nlen == clen + 1 + klen,
            0 <= t <= klen,
            forall|i: int| 0 <= i < t ==> lower_char(#[trigger] name@[clen + 1 + i])
                == lower_char(c.country@[i]),
        decreases klen - t,
    {
        if lower(name.get_char(clen + 1 + t)) != lower(c.country.as_str().get_char(t)) {
            proof {
                assert(c@.key()[clen + 1 + t] == lower_char(c.country@[t as int]));
                assert(lower_seq(name@)[clen + 1 + t] == lower_char(name@[clen + 1 + t]));
            }
            return false;
        }
        t += 1;
    }
    proof {
        assert forall|i: int| 0 <= i < clen implies lower_seq(name@)[i] == c@.key()[i] by {
            assert(c@.key()[i] == lower_char(c.city@[i]));
        }
        assert(lower_seq(name@)[clen as int] == c@.key()[clen as int]);
        assert forall|i: int| clen < i < nlen implies lower_seq(name@)[i] == c@.key()[i] by {
            assert(c@.key()[i] == lower_char(c.country@[i - clen - 1]));
            assert(lower_char(name@[clen + 1 + (i - clen - 1)]) == lower_char(
                c.country@[i - clen - 1],
            ));
        }
        assert(lower_seq(name@) =~= c@.key());
    }
    true
}

/// Errors of a load: the data source could not be opened at all.
#[derive(Debug, Clone, Copy, PartialEq, Eq, Structural)]
pub enum LoadError {
    SourceUnavailable,
}

/// Aggregate row counts reported by a load.
#[derive(Debug, Clone, Copy, PartialEq, Eq, Structural)]
pub struct LoadStats {
    pub accepted: u64,
    pub rejected: u64,
    pub ignored: u64,
}

/// In-memory database of accepted city records, addressed by composite key.
#[derive(Debug)]
pub struct CityDb {
    db: Vec<City>,
}

impl CityDb {
    /// The stored records, in storage order.
    pub closed spec fn rows(self) -> Seq<City> {
        self.db@
    }

    /// Stored keys are pairwise distinct.
    pub open spec fn wf(self) -> bool {
        forall|i: int, j: int|
            0 <= i < j < self.rows().len() ==> (#[trigger] self.rows()[i])@.key() != (
            #[trigger] self.rows()[j])@.key()
    }

    /// The store as a map from composite key to record.
    pub open spec fn model(self) -> Map<Seq<char>, CityModel> {
        Map::new(
            |k: Seq<char>|
                exists|i: int|
                    0 <= i < self.rows().len() && (#[trigger] self.rows()[i])@.key() == k,
            |k: Seq<char>|
                (self.rows()[
                    choose|i: int|
                        0 <= i < self.rows().len() && (#[trigger] self.rows()[i])@.key() == k
                ])@,
        )
    }

    /// Every stored record is the model's entry at its own key.
    pub proof fn lemma_model_at(self, i: int)
        requires
            self.wf(),
            0 <= i < self.rows().len(),
        ensures
            self.model().contains_key(self.rows()[i]@.key()),
            self.model()[self.rows()[i]@.key()] == self.rows()[i]@,
    {
        let k = self.rows()[i]@.key();
        assert(0 <= i < self.rows().len() && (#[trigger] self.rows()[i])@.key() == k);
        let j = choose|j: int|
            0 <= j < self.rows().len() && (#[trigger] self.rows()[j])@.key() == k;
        if i < j {
            assert(false);
        } else if j < i {
            assert(false);
        }
    }

    /// An empty store.
    pub fn new() -> (d: CityDb)
        ensures
            d.wf(),
            d.model() == Map::<Seq<char>, CityModel>::empty(),
            d.rows().len() == 0,
    {
        let d = CityDb { db: Vec::new() };
        proof {
            assert(d.model() =~= Map::<Seq<char>, CityModel>::empty());
        }
        d
    }

    /// Number of stored records.
    pub fn len(&self) -> (n: usize)
        ensures
            n == self.rows().len(),
    {
        self.db.len()
    }

    /// Inserts a record, replacing whatever record its key already addressed.
    fn insert_city(&mut self, c: City)
        requires
            old(self).wf(),
        ensures
            final(self).wf(),
            final(self).model() == old(self).model().insert(c@.key(), c@),
    {
        let name = c.id();
        proof {
            lemma_lower_seq_add(c@.city + seq!['/'], c@.country);
            lemma_lower_seq_add(c@.city, seq!['/']);
            assert(lower_seq(seq!['/']) =~= seq!['/']);
            assert(lower_seq(name@) == c@.key());
        }
        let n = self.db.len();
        let mut i: usize = 0;
        while i < n
            invariant
                old(self).wf(),
                self.db@ == old(self).db@,
                n == self.db@.len(),
                0 <= i <= n,
                lower_seq(name@) == c@.key(),
                forall|t: int| 0 <= t < i ==> (#[trigger] self.db@[t])@.key() != c@.key(),
            decreases n - i,
        {
            if name_matches(name.as_str(), &self.db[i]) {
                let ghost old_rows = self.db@;
                self.db.remove(i);
                self.db.push(c);
                proof {
                    let rows2 = self.db@;
                    assert(old(self).rows() == old_rows);
                    assert forall|x: int, y: int|
                        0 <= x < y < old_rows.len() implies (#[trigger] old_rows[x])@.key() != (
                    #[trigger] old_rows[y])@.key() by {
                        assert(old(self).rows()[x]@.key() != old(self).rows()[y]@.key());
                    }
                    assert(rows2 =~= old_rows.subrange(0, i as int) + old_rows.subrange(
                        i + 1,
                        n as int,
                    ) + seq![c]);
                    assert forall|a: int, b: int|
                        0 <= a < b < rows2.len() implies (#[trigger] rows2[a])@.key() != (
                    #[trigger] rows2[b])@.key() by {
                        let a0 = if a < i {
                            a
                        } else {
                            a + 1
                        };
                        if b < rows2.len() - 1 {
                            let b0 = if b < i {
                                b
                            } else {
                                b + 1
                            };
                            assert(rows2[a] == old_rows[a0] && rows2[b] == old_rows[b0]);
                        } else {
                            assert(rows2[a] == old_rows[a0]);
                            assert(old_rows[a0]@.key() != old_rows[i as int]@.key());
                        }
                    }
                    assert(self.wf());
                    self.lemma_insert_model(old(self), c, i as int, old_rows);
                }
                return ;
            }
            i += 1;
        }
        let ghost old_rows = self.db@;
        self.db.push(c);
        proof {
            let rows2 = self.db@;
            assert(old(self).rows() == old_rows);
            assert forall|x: int, y: int|
                0 <= x < y < old_rows.len() implies (#[trigger] old_rows[x])@.key() != (
            #[trigger] old_rows[y])@.key() by {
                assert(old(self).rows()[x]@.key() != old(self).rows()[y]@.key());
            }
            assert forall|a: int, b: int|
                0 <= a < b < rows2.len() implies (#[trigger] rows2[a])@.key() != (
            #[trigger] rows2[b])@.key() by {
                if b < rows2.len() - 1 {
                    assert(rows2[a] == old_rows[a] && rows2[b] == old_rows[b]);
                } else {
                    assert(rows2[a] == old_rows[a]);
                }
            }
            assert(self.wf());
            assert forall|k: Seq<char>|
                #[trigger] self.model().contains_key(k)
                    == old(self).model().insert(c@.key(), c@).contains_key(k) by {
                if k == c@.key() {
                    self.lemma_model_at(rows2.len() - 1);
                } else {
                    if old(self).model().contains_key(k) {
                        let t = choose|t: int|
                            0 <= t < old_rows.len() && (#[trigger] old_rows[t])@.key() == k;
                        assert(rows2[t]@.key() == k);
                    }
                    if self.model().contains_key(k) {
                        let t = choose|t: int|
                            0 <= t < rows2.len() && (#[trigger] rows2[t])@.key() == k;
                        assert(old_rows[t]@.key() == k);
                    }
                }
            }
            assert forall|k: Seq<char>| self.model().contains_key(k) implies #[trigger] self.model()[k]
                == old(self).model().insert(c@.key(), c@)[k] by {
                if k == c@.key() {
                    self.lemma_model_at(rows2.len() - 1);
                } else {
                    let t = choose|t: int|
                        0 <= t < rows2.len() && (#[trigger] rows2[t])@.key() == k;
                    assert(old_rows[t]@.key() == k);
                    self.lemma_model_at(t);
                    old(self).lemma_model_at(t);
                }
            }
            assert(self.model() =~= old(self).model().insert(c@.key(), c@));
        }
    }

    /// After replacing the one record that shared the new record's key, the
    /// model is the old model with that key re-bound.
    proof fn lemma_insert_model(self, prev: &CityDb, c: City, i: int, old_rows: Seq<City>)
        requires
            self.wf(),
            prev.wf(),
            old_rows == prev.rows(),
            0 <= i < old_rows.len(),
            old_rows[i]@.key() == c@.key(),
            self.rows() =~= old_rows.subrange(0, i) + old_rows.subrange(
                i + 1,
                old_rows.len() as int,
            ) + seq![c],
        ensures
            self.model() == prev.model().insert(c@.key(), c@),
    {
        let rows2 = self.rows();
        assert forall|k: Seq<char>|
            #[trigger] self.model().contains_key(k) == prev.model().insert(
                c@.key(),
                c@,
            ).contains_key(k) by {
            if k == c@.key() {
                self.lemma_model_at(rows2.len() - 1);
            } else {
                if prev.model().contains_key(k) {
                    let t = choose|t: int|
                        0 <= t < old_rows.len() && (#[trigger] old_rows[t])@.key() == k;
                    let t2 = if t < i {
                        t
                    } else {
                        t - 1
                    };
                    assert(rows2[t2]@.key() == k);
                }
                if self.model().contains_key(k) {
                    let t = choose|t: int|
                        0 <= t < rows2.len() && (#[trigger] rows2[t])@.key() == k;
                    let t0 = if t < i {
                        t
                    } else {
                        t + 1
                    };
                    assert(old_rows[t0]@.key() == k);
                }
            }
        }
        assert forall|k: Seq<char>| self.model().contains_key(k) implies #[trigger] self.model()[k]
            == prev.model().insert(c@.key(), c@)[k] by {
            if k == c@.key() {
                self.lemma_model_at(rows2.len() - 1);
            } else {
                let t = choose|t: int|
                    0 <= t < rows2.len() && (#[trigger] rows2[t])@.key() == k;
                let t0 = if t < i {
                    t
                } else {
                    t + 1
                };
                assert(old_rows[t0]@.key() == k);
                self.lemma_model_at(t);
                prev.lemma_model_at(t0);
            }
        }
        assert(self.model() =~= prev.model().insert(c@.key(), c@));
    }

    /// Looks one query name up under its case-folded composite key; `None`
    /// when the store holds no record under that key.
    pub fn get<'a>(&'a self, name: &str) -> (r: Option<&'a City>)
        requires
            self.wf(),
        ensures
            match r {
                Some(c) => self.model().contains_key(lower_seq(name@)) && c@ == self.model()[lower_seq(name@)],
                None => !self.model().contains_key(lower_seq(name@)),
            },
    {
        let n = self.db.len();
        let mut i: usize = 0;
        while i < n
            invariant
                self.wf(),
                n == self.rows().len(),
                0 <= i <= n,
                forall|t: int| 0 <= t < i ==> (#[trigger] self.rows()[t])@.key() != lower_seq(
                    name@,
                ),
            decreases n - i,
        {
            if name_matches(name, &self.db[i]) {
                proof {
                    self.lemma_model_at(i as int);
                }
                return Some(&self.db[i]);
            }
            i += 1;
        }
        None
    }
}

/// Strips one trailing carriage return, for sources with CRLF line endings.
pub open spec fn strip_cr(s: Seq<char>) -> Seq<char> {
    if s.len() > 0 && s.last() == '\r' {
        s.drop_last()
    } else {
        s
    }
}

/// Row counts of a load, as unbounded numbers.
pub ghost struct Counts {
    pub accepted: nat,
    pub rejected: nat,
    pub ignored: nat,
}

/// Store contents and counts that a sequence of data lines produces: each
/// line is stripped of one trailing carriage return; empty lines are passed
/// over; accepted rows land in the map under their key, a later row
/// overwriting any earlier one with the same key; ignored and rejected rows
/// are only counted.
pub open spec fn process_lines(lines: Seq<Seq<char>>) -> (Map<Seq<char>, CityModel>, Counts)
    decreases lines.len(),
{
    if lines.len() == 0 {
        (Map::<Seq<char>, CityModel>::empty(), Counts { accepted: 0, rejected: 0, ignored: 0 })
    } else {
        let p = process_lines(lines.drop_last());
        let l = strip_cr(lines.last());
        if l.len() == 0 {
            p
        } else if row_accepted(l) {
            (
                p.0.insert(row_city(l).key(), row_city(l)),
                Counts { accepted: p.1.accepted + 1, rejected: p.1.rejected, ignored: p.1.ignored },
            )
        } else if row_ignored(l) {
            (
                p.0,
                Counts { accepted: p.1.accepted, rejected: p.1.rejected, ignored: p.1.ignored + 1 },
            )
        } else {
            (
                p.0,
                Counts { accepted: p.1.accepted, rejected: p.1.rejected + 1, ignored: p.1.ignored },
            )
        }
    }
}

/// The data lines of a source text: everything after the header line.
pub open spec fn data_lines(text: Seq<char>) -> Seq<Seq<char>> {
    split_on(text, '\n').drop_first()
}

/// The store that loading `text` produces.
pub open spec fn load_map(text: Seq<char>) -> Map<Seq<char>, CityModel> {
    process_lines(data_lines(text)).0
}

/// The counts that loading `text` reports.
pub open spec fn load_counts(text: Seq<char>) -> Counts {
    process_lines(data_lines(text)).1
}

/// No count exceeds the number of lines.
pub proof fn lemma_counts_bound(lines: Seq<Seq<char>>)
    ensures
        process_lines(lines).1.accepted + process_lines(lines).1.rejected + process_lines(
            lines,
        ).1.ignored <= lines.len(),
    decreases lines.len(),
{
    if lines.len() > 0 {
        lemma_counts_bound(lines.drop_last());
    }
}

impl CityDb {
    /// Parses a whole source text already read by the surrounding program:
    /// the first line is the header, every later line one data row.
    pub fn from_text(text: &str) -> (r: (CityDb, LoadStats))
        ensures
            r.0.wf(),
            r.0.model() == load_map(text@),
            r.1.accepted == load_counts(text@).accepted,
            r.1.rejected == load_counts(text@).rejected,
            r.1.ignored == load_counts(text@).ignored,
    {
        let lines = split_str(text, '\n');
        let mut db = CityDb::new();
        let mut accepted: u64 = 0;
        let mut rejected: u64 = 0;
        let mut ignored: u64 = 0;
        let n = lines.len();
        let mut i: usize = 1;
        proof {
            assert(lines@.map_values(|t: &str| t@).subrange(1, 1) =~= Seq::<Seq<char>>::empty());
        }
        while i < n
            invariant
                lines@.map_values(|t: &str| t@) == split_on(text@, '\n'),
                n == lines@.len(),
                1 <= i <= n || (n == 0 && i == 1),
                db.wf(),
                db.model() == process_lines(
                    lines@.map_values(|t: &str| t@).subrange(1, i as int),
                ).0,
                accepted == process_lines(
                    lines@.map_values(|t: &str| t@).subrange(1, i as int),
                ).1.accepted,
                rejected == process_lines(
                    lines@.map_values(|t: &str| t@).subrange(1, i as int),
                ).1.rejected,
                ignored == process_lines(
                    lines@.map_values(|t: &str| t@).subrange(1, i as int),
                ).1.ignored,
            decreases n - i,
        {
            let ghost prefix = lines@.map_values(|t: &str| t@).subrange(1, i as int);
            let ghost prefix2 = lines@.map_values(|t: &str| t@).subrange(1, i + 1);
            proof {
                assert(prefix2.drop_last() =~= prefix);
                assert(prefix2.last() == lines@[i as int]@);
                lemma_counts_bound(prefix);
            }
            let line = lines[i];
            let ln = line.unicode_len();
            let stripped: &str = if ln > 0 && line.get_char(ln - 1) == '\r' {
                let s2 = line.substring_char(0, ln - 1);
                proof {
                    assert(s2@ =~= strip_cr(line@));
                }
                s2
            } else {
                line
            };
            if stripped.unicode_len() > 0 {
                match decode_row(stripped) {
                    RowResult::Accepted(c) => {
                        db.insert_city(c);
                        accepted = accepted + 1;
                    },
                    RowResult::Ignored => {
                        ignored = ignored + 1;
                    },
                    RowResult::Rejected => {
                        rejected = rejected + 1;
                    },
                }
            }
            i += 1;
        }
        proof {
            if n == 0 {
                assert(lines@.map_values(|t: &str| t@).len() == 0);
                assert(split_on(text@, '\n').len() >= 1);
            }
            assert(lines@.map_values(|t: &str| t@).subrange(1, n as int) =~= data_lines(text@));
        }
        (db, LoadStats { accepted, rejected, ignored })
    }

    /// Loads a city table whose text the surrounding program has read;
    /// `None` stands for a data source that could not be opened and yields
    /// the fatal `SourceUnavailable` error. Malformed rows never abort a
    /// load: they are counted and passed over.
    pub fn load(source: Option<&str>) -> (r: Result<(CityDb, LoadStats), LoadError>)
        ensures
            match source {
                Some(text) => r matches Ok(p) && p.0.wf() && p.0.model() == load_map(text@)
                    && p.1.accepted == load_counts(text@).accepted && p.1.rejected == load_counts(
                    text@,
                ).rejected && p.1.ignored == load_counts(text@).ignored,
                None => r matches Err(e) && e == LoadError::SourceUnavailable,
            },
    {
        match source {
            Some(text) => Ok(CityDb::from_text(text)),
            None => Err(LoadError::SourceUnavailable),
        }
    }
}

/// Descending order by the chosen axis, pairwise.
pub open spec fn sorted_desc(s: Seq<CityModel>, d: Direction) -> bool {
    forall|a: int, b: int| 0 <= a < b < s.len() ==> s[a].axis(d) >= s[b].axis(d)
}

/// Inserts into a descending-ordered sequence, behind any records whose axis
/// value equals the new one.
pub open spec fn insert_desc(m: CityModel, s: Seq<CityModel>, d: Direction) -> Seq<CityModel>
    decreases s.len(),
{
    if s.len() == 0 {
        seq![m]
    } else if m.axis(d) > s[0].axis(d) {
        seq![m] + s
    } else {
        seq![s[0]] + insert_desc(m, s.drop_first(), d)
    }
}

/// Stable descending sort by the chosen axis: records are placed in the
/// order they arrive, each behind the ones already placed with an equal
/// axis value.
pub open spec fn sort_desc(s: Seq<CityModel>, d: Direction) -> Seq<CityModel>
    decreases s.len(),
{
    if s.len() == 0 {
        Seq::<CityModel>::empty()
    } else {
        insert_desc(s.last(), sort_desc(s.drop_last(), d), d)
    }
}

/// The new record lands at the first position whose axis value it exceeds.
pub proof fn lemma_insert_desc_at(m: CityModel, s: Seq<CityModel>, d: Direction, p: int)
    requires
        0 <= p <= s.len(),
        forall|t: int| 0 <= t < p ==> m.axis(d) <= (#[trigger] s[t]).axis(d),
        p < s.len() ==> m.axis(d) > s[p].axis(d),
    ensures
        insert_desc(m, s, d) == s.subrange(0, p) + seq![m] + s.subrange(p, s.len() as int),
    decreases p,
{
    if p == 0 {
        assert(insert_desc(m, s, d) =~= s.subrange(0, 0) + seq![m] + s.subrange(
            0,
            s.len() as int,
        ));
    } else {
        assert forall|t: int| 0 <= t < p - 1 implies m.axis(d) <= (#[trigger] s.drop_first()[t]).axis(
            d,
        ) by {
            assert(s.drop_first()[t] == s[t + 1]);
        }
        lemma_insert_desc_at(m, s.drop_first(), d, p - 1);
        assert(insert_desc(m, s, d) =~= s.subrange(0, p) + seq![m] + s.subrange(
            p,
            s.len() as int,
        ));
    }
}

/// Insertion preserves descending order.
pub proof fn lemma_insert_desc_sorted(m: CityModel, s: Seq<CityModel>, d: Direction)
    requires
        sorted_desc(s, d),
    ensures
        sorted_desc(insert_desc(m, s, d), d),
    decreases s.len(),
{
    if s.len() == 0 {
    } else if m.axis(d) > s[0].axis(d) {
    } else {
        assert(sorted_desc(s.drop_first(), d));
        lemma_insert_desc_len(m, s.drop_first(), d);
        lemma_insert_desc_sorted(m, s.drop_first(), d);
        let r = seq![s[0]] + insert_desc(m, s.drop_first(), d);
        assert forall|a: int, b: int| 0 <= a < b < r.len() implies r[a].axis(d) >= r[b].axis(d) by {
            if a == 0 {
                lemma_insert_desc_members(m, s.drop_first(), d, b - 1);
            }
        }
    }
}

/// Insertion grows the sequence by one.
pub proof fn lemma_insert_desc_len(m: CityModel, s: Seq<CityModel>, d: Direction)
    ensures
        insert_desc(m, s, d).len() == s.len() + 1,
    decreases s.len(),
{
    if s.len() == 0 {
    } else if m.axis(d) > s[0].axis(d) {
    } else {
        lemma_insert_desc_len(m, s.drop_first(), d);
    }
}

/// Every element of an insertion result is the new record or one of the old
/// ones.
pub proof fn lemma_insert_desc_members(m: CityModel, s: Seq<CityModel>, d: Direction, t: int)
    requires
        0 <= t < insert_desc(m, s, d).len(),
    ensures
        insert_desc(m, s, d)[t] == m || exists|u: int|
            0 <= u < s.len() && insert_desc(m, s, d)[t] == s[u],
    decreases s.len(),
{
    lemma_insert_desc_len(m, s, d);
    if s.len() == 0 {
    } else if m.axis(d) > s[0].axis(d) {
        if t > 0 {
            assert(insert_desc(m, s, d)[t] == s[t - 1]);
        }
    } else {
        if t == 0 {
            assert(insert_desc(m, s, d)[0] == s[0]);
        } else {
            lemma_insert_desc_len(m, s.drop_first(), d);
            lemma_insert_desc_members(m, s.drop_first(), d, t - 1);
            if insert_desc(m, s.drop_first(), d)[t - 1] != m {
                let u = choose|u: int|
                    0 <= u < s.drop_first().len() && insert_desc(m, s.drop_first(), d)[t - 1]
                        == s.drop_first()[u];
                assert(insert_desc(m, s, d)[t] == s[u + 1]);
            }
        }
    }
}

/// The result of a descending sort is in descending order.
pub proof fn lemma_sort_desc_sorted(s: Seq<CityModel>, d: Direction)
    ensures
        sorted_desc(sort_desc(s, d), d),
    decreases s.len(),
{
    if s.len() > 0 {
        lemma_sort_desc_sorted(s.drop_last(), d);
        lemma_insert_desc_sorted(s.last(), sort_desc(s.drop_last(), d), d);
    }
}

impl CityDb {
    /// The records a list of query names finds, in the order the names were
    /// given; names the store does not know contribute nothing.
    pub open spec fn found(self, names: Seq<Seq<char>>) -> Seq<CityModel>
        decreases names.len(),
    {
        if names.len() == 0 {
            Seq::<CityModel>::empty()
        } else {
            let rest = self.found(names.drop_last());
            let k = lower_seq(names.last());
            if self.model().contains_key(k) {
                rest.push(self.model()[k])
            } else {
                rest
            }
        }
    }

    /// Collects the records the query names find and orders them descending
    /// by the chosen coordinate; an unknown name is passed over, never an
    /// error.
    pub fn sort<'a>(&'a self, city_names: Vec<&str>, direction: &Direction) -> (r: Vec<&'a City>)
        requires
            self.wf(),
        ensures
            r@.map_values(|c: &City| c@) == sort_desc(
                self.found(city_names@.map_values(|t: &str| t@)),
                *direction,
            ),
            forall|a: int, b: int|
                0 <= a < b < r@.len() ==> (#[trigger] r@[a])@.axis(*direction) >= (
                #[trigger] r@[b])@.axis(*direction),
    {
        let ghost names = city_names@.map_values(|t: &str| t@);
        let ghost d = *direction;
        let mut r: Vec<&'a City> = Vec::new();
        let m = city_names.len();
        let mut i: usize = 0;
        proof {
            assert(names.subrange(0, 0) =~= Seq::<Seq<char>>::empty());
            assert(r@.map_values(|c: &City| c@) =~= Seq::<CityModel>::empty());
        }
        while i < m
            invariant
                self.wf(),
                names == city_names@.map_values(|t: &str| t@),
                d == *direction,
                m == city_names@.len(),
                0 <= i <= m,
                r@.map_values(|c: &City| c@) == sort_desc(self.found(names.subrange(0, i as int)), d),
            decreases m - i,
        {
            let ghost prefix = names.subrange(0, i as int);
            let ghost prefix2 = names.subrange(0, i + 1);
            proof {
                assert(prefix2.drop_last() =~= prefix);
                assert(prefix2.last() == city_names@[i as int]@);
            }
            let name = city_names[i];
            match self.get(name) {
                None => {
                    proof {
                        assert(self.found(prefix2) == self.found(prefix));
                    }
                },
                Some(c) => {
                    let ghost rs = r@.map_values(|c: &City| c@);
                    proof {
                        lemma_sort_desc_sorted(self.found(prefix), d);
                    }
                    let cv = axis_of(c, direction);
                    let mut p: usize = 0;
                    while p < r.len() && cv <= axis_of(r[p], direction)
                        invariant
                            rs == r@.map_values(|c: &City| c@),
                            cv == c@.axis(d),
                            d == *direction,
                            0 <= p <= r@.len(),
                            forall|t: int| 0 <= t < p ==> cv <= (#[trigger] rs[t]).axis(d),
                        decreases r@.len() - p,
                    {
                        p += 1;
                    }
                    proof {
                        lemma_insert_desc_at(c@, rs, d, p as int);
                    }
                    r.insert(p, c);
                    proof {
                        assert(r@.map_values(|cc: &City| cc@) =~= rs.subrange(0, p as int) + seq![
                            c@,
                        ] + rs.subrange(p as int, rs.len() as int));
                        let f2 = self.found(prefix2);
                        assert(f2 == self.found(prefix).push(c@));
                        assert(f2.drop_last() =~= self.found(prefix));
                        assert(sort_desc(f2, d) == insert_desc(c@, sort_desc(self.found(prefix), d), d));
                        assert(r@.map_values(|cc: &City| cc@) == sort_desc(self.found(prefix2), d));
                    }
                },
            }
            i += 1;
        }
        proof {
            assert(names.subrange(0, m as int) =~= names);
            lemma_sort_desc_sorted(self.found(names), d);
            let rs = r@.map_values(|c: &City| c@);
            assert forall|a: int, b: int|
                0 <= a < b < r@.len() implies (#[trigger] r@[a])@.axis(*direction) >= (
            #[trigger] r@[b])@.axis(*direction) by {
                assert(rs[a] == r@[a]@ && rs[b] == r@[b]@);
                assert(rs[a].axis(d) >= rs[b].axis(d));
            }
        }
        r
    }
}

/// The coordinate selected by `d`, read from a record.
fn axis_of(c: &City, d: &Direction) -> (v: i64)
    ensures
        v == c@.axis(*d),
{
    match d {
        Direction::Lat => c.lat(),
        Direction::Lon => c.lon(),
    }
}

/// One-line human-readable rendering of a record: display name padded to
/// ten characters, population (zero when unknown), and a map link.
pub open spec fn summary_chars(c: CityModel) -> Seq<char> {
    let label = if c.accent_city.len() >= 10 {
        c.accent_city
    } else {
        c.accent_city + crate::format::spaces((10 - c.accent_city.len()) as nat)
    };
    label + seq![' '] + crate::format::dec_digits(
        match c.population {
            Some(p) => p as nat,
            None => 0,
        },
    ) + "  https://www.openstreetmap.org/#map=8/"@ + crate::format::micro_chars(
        c.latitude as int,
    ) + seq!['/'] + crate::format::micro_chars(c.longitude as int)
}

impl City {
    /// Renders the one-line summary; callers that would print the record use
    /// this in place of a `Display` implementation.
    pub fn summary(&self) -> (r: String)
        ensures
            r@ == summary_chars(self@),
    {
        let mut r = String::from_str(self.accent_city.as_str());
        let label_len = self.accent_city.unicode_len();
        if label_len < 10 {
            let pad = crate::format::spaces_string(10 - label_len);
            r.append(pad.as_str());
        }
        proof {
            reveal_strlit(" ");
            assert(" "@ =~= seq![' ']);
            reveal_strlit("  https://www.openstreetmap.org/#map=8/");
            reveal_strlit("/");
            assert("/"@ =~= seq!['/']);
        }
        r.append(" ");
        let pop = crate::format::u64_to_string(
            match self.population {
                Some(p) => p,
                None => 0,
            },
        );
        r.append(pop.as_str());
        r.append("  https://www.openstreetmap.org/#map=8/");
        let lat = crate::format::micro_to_string(self.latitude);
        r.append(lat.as_str());
        r.append("/");
        let lon = crate::format::micro_to_string(self.longitude);
        r.append(lon.as_str());
        proof {
            assert(r@ =~= summary_chars(self@));
        }
        r
    }
}

/// Idempotent load: two stores loaded from the same text agree on every key
/// and on every stored record.
pub proof fn lemma_load_idempotent(d1: CityDb, d2: CityDb, text: Seq<char>)
    requires
        d1.model() == load_map(text),
        d2.model() == load_map(text),
    ensures
        d1.model().dom() == d2.model().dom(),
        forall|k: Seq<char>| d1.model().contains_key(k) ==> d1.model()[k] == d2.model()[k],
{
}

/// Filter invariant for the processed lines: every stored record carries a
/// population and sits under its own composite key.
pub proof fn lemma_process_lines_population(lines: Seq<Seq<char>>, k: Seq<char>)
    requires
        process_lines(lines).0.contains_key(k),
    ensures
        process_lines(lines).0[k].population is Some,
        process_lines(lines).0[k].key() == k,
    decreases lines.len(),
{
    if lines.len() == 0 {
    } else {
        let l = strip_cr(lines.last());
        if l.len() != 0 && row_accepted(l) && k == row_city(l).key() {
        } else {
            lemma_process_lines_population(lines.drop_last(), k);
        }
    }
}

/// Filter invariant: a row without a population never appears in the loaded
/// store — every stored record's population is known.
pub proof fn lemma_loaded_population_known(text: Seq<char>, k: Seq<char>)
    requires
        load_map(text).contains_key(k),
    ensures
        load_map(text)[k].population is Some,
        load_map(text)[k].key() == k,
{
    lemma_process_lines_population(data_lines(text), k);
}

/// An ignored row (no population) changes no store entry; it only raises
/// the ignored count.
pub proof fn lemma_ignored_row_only_counted(lines: Seq<Seq<char>>, l: Seq<char>)
    requires
        row_ignored(l),
        strip_cr(l) == l,
    ensures
        process_lines(lines.push(l)).0 == process_lines(lines).0,
        process_lines(lines.push(l)).1.ignored == process_lines(lines).1.ignored + 1,
        process_lines(lines.push(l)).1.accepted == process_lines(lines).1.accepted,
        process_lines(lines.push(l)).1.rejected == process_lines(lines).1.rejected,
{
    assert(lines.push(l).drop_last() =~= lines);
    assert(l.len() != 0) by {
        if l.len() == 0 {
            assert(split_on(l, ',') =~= seq![l]);
        }
    }
}

/// Rows that do not write a key leave that key's entry unchanged, however
/// many of them follow.
pub proof fn lemma_unwritten_key_stable(lines: Seq<Seq<char>>, more: Seq<Seq<char>>, k: Seq<char>)
    requires
        forall|i: int|
            0 <= i < more.len() ==> !(row_accepted(strip_cr(#[trigger] more[i])) && row_city(
                strip_cr(more[i]),
            ).key() == k),
    ensures
        process_lines(lines + more).0.contains_key(k) == process_lines(lines).0.contains_key(k),
        process_lines(lines).0.contains_key(k) ==> process_lines(lines + more).0[k]
            == process_lines(lines).0[k],
    decreases more.len(),
{
    if more.len() == 0 {
        assert(lines + more =~= lines);
    } else {
        assert((lines + more).drop_last() =~= lines + more.drop_last());
        assert((lines + more).last() == more.last());
        assert forall|i: int|
            0 <= i < more.drop_last().len() implies !(row_accepted(
            strip_cr(#[trigger] more.drop_last()[i]),
        ) && row_city(strip_cr(more.drop_last()[i])).key() == k) by {
            assert(more.drop_last()[i] == more[i]);
        }
        lemma_unwritten_key_stable(lines, more.drop_last(), k);
    }
}

/// Last write wins: when a later row shares its composite key with an
/// earlier one, the stored record is the later row's.
pub proof fn lemma_last_write_wins(lines: Seq<Seq<char>>, l1: Seq<char>, l2: Seq<char>)
    requires
        row_accepted(l1),
        row_accepted(l2),
        strip_cr(l1) == l1,
        strip_cr(l2) == l2,
        row_city(l1).key() == row_city(l2).key(),
    ensures
        process_lines(lines.push(l1).push(l2)).0.contains_key(row_city(l1).key()),
        process_lines(lines.push(l1).push(l2)).0[row_city(l1).key()] == row_city(l2),
{
    let both = lines.push(l1).push(l2);
    assert(both.drop_last() =~= lines.push(l1));
    assert(both.last() == l2);
    assert(l2.len() != 0) by {
        if l2.len() == 0 {
            assert(split_on(l2, ',') =~= seq![l2]);
        }
    }
}

} // verus!
