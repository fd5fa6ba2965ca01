use vstd::prelude::*;

use crate::addr::{addr_list, chars_of, parse_addrs, trim, trim_range, AddrError};
use crate::modbus::{sorted_unique, RegType};

verus! {

/// The settings of one run: where the device is, how long to wait, and which
/// addresses of which kind to read.
#[derive(Debug, Clone)]
pub struct Cli {
    pub host: String,
    pub port: u16,
    pub unit: u8,
    pub timeout_ms: u64,
    pub holding: Option<String>,
    pub input: Option<String>,
    pub coils: Option<String>,
    pub discrete: Option<String>,
    pub watch: bool,
    pub interval_ms: u64,
    /// Addresses given without a kind; read as holding registers.
    pub addrs: Option<String>,
}

/// Why a set of settings was refused.
#[derive(Debug, Clone, Copy, PartialEq, Eq, Structural)]
pub enum CliError {
    /// Untyped addresses were given together with typed ones.
    Mixed,
    /// The address list of this kind is blank.
    BlankList(RegType),
    /// No addresses at all.
    NoAddrs,
    ZeroTimeout,
    /// Watch mode with a zero interval.
    ZeroInterval,
}

pub open spec fn blank(o: Option<String>) -> bool {
    o matches Some(s) && trim(s@).len() == 0
}

impl Cli {
    pub open spec fn any_typed(&self) -> bool {
        self.holding is Some || self.input is Some || self.coils is Some || self.discrete is Some
    }

    /// The settings with untyped addresses moved to the holding kind.
    pub open spec fn moved(self) -> Cli {
        if self.any_typed() {
            self
        } else {
            Cli { holding: self.addrs, addrs: None, ..self }
        }
    }

    pub open spec fn spec_normalize(self) -> Result<Cli, CliError> {
        let m = self.moved();
        if self.any_typed() && self.addrs is Some {
            Err(CliError::Mixed)
        } else if blank(m.holding) {
            Err(CliError::BlankList(RegType::Holding))
        } else if blank(m.input) {
            Err(CliError::BlankList(RegType::Input))
        } else if blank(m.coils) {
            Err(CliError::BlankList(RegType::Coils))
        } else if blank(m.discrete) {
            Err(CliError::BlankList(RegType::Discrete))
        } else if !m.any_typed() {
            Err(CliError::NoAddrs)
        } else if m.timeout_ms == 0 {
            Err(CliError::ZeroTimeout)
        } else if m.watch && m.interval_ms == 0 {
            Err(CliError::ZeroInterval)
        } else {
            Ok(m)
        }
    }

    /// Checks the settings: untyped addresses may not be mixed with typed ones and are
    /// read as holding registers; no address list may be blank and at least one must
    /// be given; the timeout, and in watch mode the interval, must be positive.
    pub fn normalize(self) -> (r: Result<Cli, CliError>)
        ensures
            r == self.spec_normalize(),
    {
        let mut me = self;
        let any_typed = me.holding.is_some() || me.input.is_some() || me.coils.is_some()
            || me.discrete.is_some();
        if any_typed {
            if me.addrs.is_some() {
                return Err(CliError::Mixed);
            }
        } else {
            me.holding = me.addrs;
            me.addrs = None;
        }
        assert(me == self.moved());
        if is_blank(&me.holding) {
            return Err(CliError::BlankList(RegType::Holding));
        }
        if is_blank(&me.input) {
            return Err(CliError::BlankList(RegType::Input));
        }
        if is_blank(&me.coils) {
            return Err(CliError::BlankList(RegType::Coils));
        }
        if is_blank(&me.discrete) {
            return Err(CliError::BlankList(RegType::Discrete));
        }
        if me.holding.is_none() && me.input.is_none() && me.coils.is_none() && me.discrete.is_none() {
            return Err(CliError::NoAddrs);
        }
        if me.timeout_ms == 0 {
            return Err(CliError::ZeroTimeout);
        }
        if me.watch && me.interval_ms == 0 {
            return Err(CliError::ZeroInterval);
        }
        Ok(me)
    }
}

fn is_blank(o: &Option<String>) -> (r: bool)
    ensures
        r == blank(*o),
{
    match o {
        Some(s) => {
            let c = chars_of(s.as_str());
            let (a, b) = trim_range(&c, 0, c.len());
            assert(c@.subrange(0, c.len() as int) =~= s@);
            a == b
        },
        None => false,
    }
}

/// The requests built so far, with one more list added if it is given.
pub open spec fn req_step(
    acc: Result<Seq<(RegType, Set<int>)>, AddrError>,
    ty: RegType,
    o: Option<String>,
) -> Result<Seq<(RegType, Set<int>)>, AddrError> {
    match acc {
        Err(e) => Err(e),
        Ok(sq) => match o {
            None => Ok(sq),
            Some(s) => match addr_list(s@) {
                Err(e) => Err(e),
                Ok(set) => Ok(sq.push((ty, set))),
            },
        },
    }
}

/// One request per given list, in the order holding, input, coils, discrete, or the
/// error of the first list that does not parse.
pub open spec fn spec_build_reqs(cli: Cli) -> Result<Seq<(RegType, Set<int>)>, AddrError> {
    req_step(
        req_step(
            req_step(req_step(Ok(Seq::empty()), RegType::Holding, cli.holding), RegType::Input, cli.input),
            RegType::Coils,
            cli.coils,
        ),
        RegType::Discrete,
        cli.discrete,
    )
}

/// `reqs` lists the kinds of `sq` in order, each with its addresses sorted, distinct
/// and exactly those of the set.
pub open spec fn reqs_match(reqs: Seq<(RegType, Vec<u16>)>, sq: Seq<(RegType, Set<int>)>) -> bool {
    &&& reqs.len() == sq.len()
    &&& forall|k: int|
        0 <= k < reqs.len() ==> {
            &&& (#[trigger] reqs[k]).0 == sq[k].0
            &&& sorted_unique(reqs[k].1@)
            &&& forall|a: u16| reqs[k].1@.contains(a) <==> sq[k].1.contains(a as int)
        }
}

fn add_req(
    out: &mut Vec<(RegType, Vec<u16>)>,
    ty: RegType,
    o: &Option<String>,
    Ghost(sq): Ghost<Seq<(RegType, Set<int>)>>,
) -> (r: Result<(), AddrError>)
    requires
        reqs_match(old(out)@, sq),
    ensures
        match req_step(Ok(sq), ty, *o) {
            Ok(sq2) => r is Ok && reqs_match(final(out)@, sq2),
            Err(e) => r == Err::<(), AddrError>(e),
        },
{
    match o {
        None => Ok(()),
        Some(s) => match parse_addrs(s.as_str()) {
            Ok(v) => {
                out.push((ty, v));
                assert(reqs_match(out@, sq.push((ty, addr_list(s@)->Ok_0))));
                Ok(())
            },
            Err(e) => Err(e),
        },
    }
}

/// Parses each given address list into a request of its kind.
pub fn build_reqs(cli: &Cli) -> (r: Result<Vec<(RegType, Vec<u16>)>, AddrError>)
    ensures
        match spec_build_reqs(*cli) {
            Ok(sq) => r is Ok && reqs_match(r->Ok_0@, sq),
            Err(e) => r == Err::<Vec<(RegType, Vec<u16>)>, AddrError>(e),
        },
{
    let mut out: Vec<(RegType, Vec<u16>)> = Vec::new();
    let ghost s0: Seq<(RegType, Set<int>)> = Seq::empty();
    let ghost s1 = req_step(Ok(s0), RegType::Holding, cli.holding);
    let ghost s2 = req_step(s1, RegType::Input, cli.input);
    let ghost s3 = req_step(s2, RegType::Coils, cli.coils);
    if let Err(e) = add_req(&mut out, RegType::Holding, &cli.holding, Ghost(s0)) {
        return Err(e);
    }
    if let Err(e) = add_req(&mut out, RegType::Input, &cli.input, Ghost(s1->Ok_0)) {
        return Err(e);
    }
    if let Err(e) = add_req(&mut out, RegType::Coils, &cli.coils, Ghost(s2->Ok_0)) {
        return Err(e);
    }
    if let Err(e) = add_req(&mut out, RegType::Discrete, &cli.discrete, Ghost(s3->Ok_0)) {
        return Err(e);
    }
    Ok(out)
}

} // verus!
