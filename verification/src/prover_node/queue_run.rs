//! A run over the message queue: with settings that make sense it connects; a seeder
//! publishes the leaves and ends; a worker checks its geometry, warms up, says that
//! it is ready, and dispatches.

use crate::prover_node::plan::{drift_text, only_the_seeded_geometry_passes, RunConfig};
use crate::prover_node::work::{admit_worker, refusal_text};
use vstd::prelude::*;
use vstd::string::*;

verus! {

/// Where a run stands.
#[derive(Debug)]
pub enum QueuePhase {
    /// Check the settings of the queue and the store.
    Validate,
    /// Connect to the queue and the store.
    Connect,
    /// Keep the run configuration, and publish the leaves of every replay.
    Seed,
    /// Read the run configuration that a seeder kept.
    ReadConfig,
    /// Build the circuits, and see whether all are there.
    Prewarm,
    /// Accept connections on this port.
    Listen(u16),
    /// Run the dispatch loop.
    Dispatch,
    /// The leaves are published.
    Seeded,
    /// The root was verified.
    RootVerified,
    /// The loop was asked to stop before there was a root.
    Drained,
    /// The settings make no sense, as the text says.
    InvalidSettings(String),
    /// There was no connection.
    NotConnected,
    /// The worker does not fit what was seeded, as the text says.
    Drifted(String),
    /// The circuits were built, but some are missing.
    NotPrimed,
}

/// What happened.
#[derive(Debug)]
pub enum QueueEvent {
    /// The settings were checked; a text says what is wrong with them.
    SettingsChecked(Option<String>),
    Connected(bool),
    LeavesPublished,
    ConfigRead(Option<RunConfig>),
    Primed(bool),
    Listening,
    /// The dispatch loop ended, with a verified root or without.
    Dispatched(bool),
}

/// A run over the message queue.
#[derive(Debug)]
pub struct QueueRun {
    pub seed: bool,
    pub prewarm_port: Option<u16>,
    pub radix: usize,
    pub leaf_count: usize,
    pub tx_per_proof: usize,
    pub phase: QueuePhase,
}

/// Whether a worker with this geometry fits what was seeded, if anything was.
pub open spec fn fits_seeded(
    seeded: Option<RunConfig>,
    radix: usize,
    leaf_count: usize,
    tx_per_proof: usize,
) -> bool {
    match seeded {
        Some(cfg) => drift_text(cfg, radix, leaf_count, tx_per_proof) is None,
        None => true,
    }
}

/// The refusal of settings with the fault `fault`.
pub open spec fn invalid_settings_text(fault: Seq<char>) -> Seq<char> {
    "Invalid --transport=pubsub config: "@ + fault
}

impl QueueRun {
    /// Whether `after` is the phase that follows once `event` happened.
    pub open spec fn leads_to(&self, event: QueueEvent, after: QueuePhase) -> bool {
        match (self.phase, event) {
            (QueuePhase::Validate, QueueEvent::SettingsChecked(fault)) => match fault {
                Some(f) => {
                    &&& after matches QueuePhase::InvalidSettings(text)
                    &&& text@ == invalid_settings_text(f@)
                },
                None => after == QueuePhase::Connect,
            },
            (QueuePhase::Connect, QueueEvent::Connected(yes)) => after == if !yes {
                QueuePhase::NotConnected
            } else if self.seed {
                QueuePhase::Seed
            } else {
                QueuePhase::ReadConfig
            },
            (QueuePhase::Seed, QueueEvent::LeavesPublished) => after == QueuePhase::Seeded,
            (QueuePhase::ReadConfig, QueueEvent::ConfigRead(seeded)) => if fits_seeded(
                seeded,
                self.radix,
                self.leaf_count,
                self.tx_per_proof,
            ) {
                after == if self.prewarm_port is Some {
                    QueuePhase::Prewarm
                } else {
                    QueuePhase::Dispatch
                }
            } else {
                &&& after matches QueuePhase::Drifted(text)
                &&& text@ == refusal_text(
                    seeded->0,
                    self.radix,
                    self.leaf_count,
                    self.tx_per_proof,
                )
            },
            (QueuePhase::Prewarm, QueueEvent::Primed(yes)) => after == match self.prewarm_port {
                Some(port) => if yes {
                    QueuePhase::Listen(port)
                } else {
                    QueuePhase::NotPrimed
                },
                None => QueuePhase::Prewarm,
            },
            (QueuePhase::Listen(_), QueueEvent::Listening) => after == QueuePhase::Dispatch,
            (QueuePhase::Dispatch, QueueEvent::Dispatched(root)) => after == if root {
                QueuePhase::RootVerified
            } else {
                QueuePhase::Drained
            },
            _ => after == self.phase,
        }
    }

    /// A run that has not begun.
    pub fn new(
        seed: bool,
        prewarm_port: Option<u16>,
        radix: usize,
        leaf_count: usize,
        tx_per_proof: usize,
    ) -> (r: Self)
        ensures
            r == (QueueRun {
                seed,
                prewarm_port,
                radix,
                leaf_count,
                tx_per_proof,
                phase: QueuePhase::Validate,
            }),
    {
        QueueRun {
            seed,
            prewarm_port,
            radix,
            leaf_count,
            tx_per_proof,
            phase: QueuePhase::Validate,
        }
    }

    /// Moves on to the phase that follows `event`.
    pub fn advance(&mut self, event: QueueEvent)
        ensures
            old(self).leads_to(event, final(self).phase),
            final(self).seed == old(self).seed,
            final(self).prewarm_port == old(self).prewarm_port,
            final(self).radix == old(self).radix,
            final(self).leaf_count == old(self).leaf_count,
            final(self).tx_per_proof == old(self).tx_per_proof,
    {
        match event {
            QueueEvent::SettingsChecked(fault) => {
                if let QueuePhase::Validate = self.phase {
                    self.phase = match fault {
                        Some(f) => {
                            let mut text = String::from_str("Invalid --transport=pubsub config: ");
                            text.append(f.as_str());
                            QueuePhase::InvalidSettings(text)
                        },
                        None => QueuePhase::Connect,
                    };
                }
            },
            QueueEvent::Connected(yes) => {
                if let QueuePhase::Connect = self.phase {
                    self.phase = if !yes {
                        QueuePhase::NotConnected
                    } else if self.seed {
                        QueuePhase::Seed
                    } else {
                        QueuePhase::ReadConfig
                    };
                }
            },
            QueueEvent::LeavesPublished => {
                if let QueuePhase::Seed = self.phase {
                    self.phase = QueuePhase::Seeded;
                }
            },
            QueueEvent::ConfigRead(seeded) => {
                if let QueuePhase::ReadConfig = self.phase {
                    self.phase = match admit_worker(
                        seeded,
                        self.radix,
                        self.leaf_count,
                        self.tx_per_proof,
                    ) {
                        Ok(_) => if self.prewarm_port.is_some() {
                            QueuePhase::Prewarm
                        } else {
                            QueuePhase::Dispatch
                        },
                        Err(text) => QueuePhase::Drifted(text),
                    };
                }
            },
            QueueEvent::Primed(yes) => {
                if let QueuePhase::Prewarm = self.phase {
                    if let Some(port) = self.prewarm_port {
                        self.phase = if yes {
                            QueuePhase::Listen(port)
                        } else {
                            QueuePhase::NotPrimed
                        };
                    }
                }
            },
            QueueEvent::Listening => {
                if let QueuePhase::Listen(_) = self.phase {
                    self.phase = QueuePhase::Dispatch;
                }
            },
            QueueEvent::Dispatched(root) => {
                if let QueuePhase::Dispatch = self.phase {
                    self.phase = if root {
                        QueuePhase::RootVerified
                    } else {
                        QueuePhase::Drained
                    };
                }
            },
        }
    }
}

/// Nothing is connected to before the settings were found to make sense.
pub proof fn connection_follows_validation(run: QueueRun, event: QueueEvent, after: QueuePhase)
    requires
        run.leads_to(event, after),
        after is Connect,
        !(run.phase is Connect),
    ensures
        run.phase is Validate,
        event == QueueEvent::SettingsChecked(None),
{
}

/// A worker says that it is ready only once its circuits are there.
pub proof fn readiness_follows_prewarming(run: QueueRun, event: QueueEvent, after: QueuePhase)
    requires
        run.leads_to(event, after),
        after is Listen,
        !(run.phase is Listen),
    ensures
        run.phase is Prewarm,
        event == QueueEvent::Primed(true),
{
}

/// The dispatch loop is entered by a worker that fits what was seeded, or by one
/// that is ready.
pub proof fn dispatch_follows_admission(run: QueueRun, event: QueueEvent, after: QueuePhase)
    requires
        run.leads_to(event, after),
        after is Dispatch,
        !(run.phase is Dispatch),
    ensures
        run.phase is Listen || (run.phase is ReadConfig && event is ConfigRead && fits_seeded(
            event->ConfigRead_0,
            run.radix,
            run.leaf_count,
            run.tx_per_proof,
        )),
{
}

/// Whether the phase is one that a seeder passes through.
pub open spec fn seeding(phase: QueuePhase) -> bool {
    phase is Validate || phase is InvalidSettings || phase is Connect || phase is Seed
        || phase is Seeded || phase is NotConnected
}

/// A seeder never works on the queue.
pub proof fn seeders_never_dispatch(run: QueueRun, event: QueueEvent, after: QueuePhase)
    requires
        run.seed,
        seeding(run.phase),
        run.leads_to(event, after),
    ensures
        seeding(after),
{
}

/// A worker fits where nothing was seeded, and else exactly where its geometry is the
/// seeded one.
pub proof fn workers_fit_what_was_seeded(
    cfg: RunConfig,
    radix: usize,
    leaf_count: usize,
    tx_per_proof: usize,
)
    ensures
        fits_seeded(None, radix, leaf_count, tx_per_proof),
        fits_seeded(Some(cfg), radix, leaf_count, tx_per_proof) <==> cfg.radix == radix
            && cfg.leaf_count_per_block == leaf_count && cfg.txs_per_chunk == tx_per_proof,
{
    only_the_seeded_geometry_passes(cfg, radix, leaf_count, tx_per_proof);
}

} // verus!
