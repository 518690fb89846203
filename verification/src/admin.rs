//! The operational surface: liveness, readiness and metrics.

use crate::text::same_text;
use vstd::prelude::*;

verus! {

/// What a probe reads.
pub struct Health {
    serving: bool,
}

impl Health {
    pub closed spec fn serving(&self) -> bool {
        self.serving
    }

    pub fn new() -> (health: Self)
        ensures
            !health.serving(),
    {
        Health { serving: false }
    }

    /// Startup is done.
    pub fn started(&mut self)
        ensures
            final(self).serving(),
    {
        self.serving = true;
    }

    /// The drain has begun: traffic moves off while what is held can still be served.
    pub fn stopping(&mut self)
        ensures
            !final(self).serving(),
    {
        self.serving = false;
    }

    /// Ready is serving, with a remote that answers now.
    pub fn ready(&self, remote_answers: bool) -> (ready: bool)
        ensures
            ready == (self.serving() && remote_answers),
    {
        self.serving && remote_answers
    }
}

#[derive(Clone, Copy, Debug, PartialEq, Eq, Structural)]
pub enum Route {
    Healthz,
    Readyz,
    Metrics,
    Unknown,
}

pub open spec fn route_of(path: Seq<char>) -> Route {
    if path == "/healthz"@ {
        Route::Healthz
    } else if path == "/readyz"@ {
        Route::Readyz
    } else if path == "/metrics"@ {
        Route::Metrics
    } else {
        Route::Unknown
    }
}

pub fn route(path: &str) -> (route: Route)
    ensures
        route == route_of(path@),
{
    if same_text(path, "/healthz") {
        Route::Healthz
    } else if same_text(path, "/readyz") {
        Route::Readyz
    } else if same_text(path, "/metrics") {
        Route::Metrics
    } else {
        Route::Unknown
    }
}

/// The answer to a probe: a status and a body.  Liveness is that the process answers at all.
pub fn answer(route: Route, ready: bool, metrics: String) -> (answer: (u16, String))
    ensures
        answer.0 == (match route {
            Route::Readyz => if ready {
                200u16
            } else {
                503u16
            },
            Route::Unknown => 404u16,
            _ => 200u16,
        }),
        answer.1@ == (match route {
            Route::Healthz => "ok"@,
            Route::Readyz => if ready {
                "ready"@
            } else {
                "not ready"@
            },
            Route::Metrics => metrics@,
            Route::Unknown => "not found"@,
        }),
{
    match route {
        Route::Healthz => (200, "ok".to_string()),
        Route::Readyz => if ready {
            (200, "ready".to_string())
        } else {
            (503, "not ready".to_string())
        },
        Route::Metrics => (200, metrics),
        Route::Unknown => (404, "not found".to_string()),
    }
}

/// Each page is at its own path, and no other path is one.
pub proof fn each_page_has_its_own_path(path: Seq<char>)
    ensures
        route_of(path) == Route::Healthz <==> path == "/healthz"@,
        route_of(path) == Route::Readyz <==> path == "/readyz"@,
        route_of(path) == Route::Metrics <==> path == "/metrics"@,
{
    reveal_strlit("/healthz");
    reveal_strlit("/readyz");
    reveal_strlit("/metrics");
    assert("/readyz"@.len() != "/healthz"@.len());
    assert("/metrics"@[1] != "/healthz"@[1]);
    assert("/readyz"@.len() != "/metrics"@.len());
}

} // verus!
