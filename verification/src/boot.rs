//! Starting the network of the database client, once per process.

use vstd::prelude::*;

verus! {

/// Out of a hundred, how many of the places where faults can be injected are active.
pub const BUGGIFY_SECTION_PROBABILITY: i32 = 100;

/// An option that is set before the network starts.
#[derive(Debug, Clone, Copy, PartialEq, Eq, Structural)]
pub enum NetworkSetting {
    ClientBuggifyEnable,
    ClientBuggifySectionActivatedProbability(i32),
}

/// Whether the network of this process has started, and if so, whether with fault injection.
/// A process that forks after the start has to begin again with its own network; it cannot
/// take over this one.
#[derive(Debug, Clone, Copy, PartialEq, Eq, Structural)]
pub struct Network {
    pub booted: Option<bool>,
}

/// The options that a start sets, in order.
pub open spec fn network_settings(enable_buggify: bool) -> Seq<NetworkSetting> {
    if enable_buggify {
        seq![
            NetworkSetting::ClientBuggifyEnable,
            NetworkSetting::ClientBuggifySectionActivatedProbability(BUGGIFY_SECTION_PROBABILITY),
        ]
    } else {
        Seq::empty()
    }
}

/// The state of the network after it was told to start: it starts only once.
pub open spec fn after_boot(booted: Option<bool>, enable_buggify: bool) -> Option<bool> {
    match booted {
        Some(with_buggify) => Some(with_buggify),
        None => Some(enable_buggify),
    }
}

/// The state of the network after it was told to start any number of times.
pub open spec fn after_boots(booted: Option<bool>, calls: Seq<bool>) -> Option<bool>
    decreases calls.len(),
{
    if calls.len() == 0 {
        booted
    } else {
        after_boot(after_boots(booted, calls.drop_last()), calls.last())
    }
}

impl Network {
    /// A network that has not started.
    pub fn new() -> (r: Self)
        ensures
            r.booted is None,
    {
        Network { booted: None }
    }
}

/// Tells the network to start, without fault injection. What is handed out are the options
/// to set before it does; nothing, if it has started already.
pub fn boot(network: &mut Network) -> (r: Option<Vec<NetworkSetting>>)
    ensures
        final(network).booted == after_boot(old(network).booted, false),
        match r {
            Some(settings) => old(network).booted is None && settings@ == network_settings(false),
            None => old(network).booted is Some,
        },
{
    boot_with_buggify(network, false)
}

/// Tells the network to start, with or without fault injection. What is handed out are the
/// options to set before it does; nothing, if it has started already. Fault injection is for
/// tests.
pub fn boot_with_buggify(network: &mut Network, enable_buggify: bool) -> (r: Option<
    Vec<NetworkSetting>,
>)
    ensures
        final(network).booted == after_boot(old(network).booted, enable_buggify),
        match r {
            Some(settings) => {
                &&& old(network).booted is None
                &&& settings@ == network_settings(enable_buggify)
            },
            None => old(network).booted is Some,
        },
{
    if network.booted.is_some() {
        return None;
    }
    network.booted = Some(enable_buggify);
    let mut settings: Vec<NetworkSetting> = Vec::new();
    if enable_buggify {
        settings.push(NetworkSetting::ClientBuggifyEnable);
        settings.push(
            NetworkSetting::ClientBuggifySectionActivatedProbability(BUGGIFY_SECTION_PROBABILITY),
        );
    }
    assert(settings@ =~= network_settings(enable_buggify));
    Some(settings)
}

/// However often the network is told to start, it does so once, and only the first caller's
/// wish for fault injection takes effect.
pub proof fn only_the_first_boot_counts(calls: Seq<bool>)
    requires
        calls.len() > 0,
    ensures
        after_boots(None, calls) == Some(calls[0]),
    decreases calls.len(),
{
    if calls.len() > 1 {
        only_the_first_boot_counts(calls.drop_last());
    } else {
        assert(after_boots(None, calls.drop_last()) is None);
    }
}

/// A network that has not started starts with the options of the first call: with fault
/// injection, it is switched on before all places are made active; without, nothing is set. One
/// that has started is left as it is, whatever is asked for, and nothing is set again.
pub proof fn network_starts_once(
    fresh: Network,
    network: &mut Network,
    enable_buggify: bool,
    r: Option<Vec<NetworkSetting>>,
    again: &mut Network,
    enable_again: bool,
    second: Option<Vec<NetworkSetting>>,
)
    requires
        call_ensures(Network::new, (), fresh),
        call_ensures(boot_with_buggify, (network, enable_buggify), r),
        *old(again) == *final(network),
        call_ensures(boot_with_buggify, (again, enable_again), second),
    ensures
        fresh.booted is None,
        r is Some <==> old(network).booted is None,
        old(network).booted is None ==> final(network).booted == Some(enable_buggify),
        old(network).booted is Some ==> final(network).booted == old(network).booted,
        r matches Some(settings) ==> {
            &&& !enable_buggify ==> settings@.len() == 0
            &&& enable_buggify ==> {
                &&& settings@.len() == 2
                &&& settings@[0] == NetworkSetting::ClientBuggifyEnable
                &&& settings@[1] == NetworkSetting::ClientBuggifySectionActivatedProbability(100)
            }
        },
        second is None,
        final(again).booted == final(network).booted,
{
}

/// To start the network is to start it without fault injection.
pub proof fn plain_boot_injects_no_faults(
    plain: &mut Network,
    without: &mut Network,
    r: (Option<Vec<NetworkSetting>>, Option<Vec<NetworkSetting>>),
)
    requires
        *old(plain) == *old(without),
        call_ensures(boot, (plain,), r.0),
        call_ensures(boot_with_buggify, (without, false), r.1),
    ensures
        final(plain).booted == final(without).booted,
        r.0 is Some <==> r.1 is Some,
        r.0 is Some ==> r.0->0@.len() == 0,
{
}

} // verus!
