//! Vehicle reasoning: the kinds of road, surface and signal the reasoner
//! knows, decision priorities, the traffic rules that assign them, and the
//! SPARQL query templates it runs.
use vstd::prelude::*;
use crate::text::{push_str, string_of};

verus! {

/// Traffic light states.
#[derive(Debug, Clone, Copy, PartialEq, Eq, Structural)]
pub enum TrafficLightState {
    /// Red.
    Red,
    /// Yellow.
    Yellow,
    /// Green.
    Green,
}

/// Zone types.
#[derive(Debug, Clone, Copy, PartialEq, Eq, Structural)]
pub enum ZoneType {
    /// Highway.
    Highway,
    /// Urban road.
    Urban,
    /// Residential street.
    Residential,
    /// School zone.
    SchoolZone,
}

/// Surface conditions.
#[derive(Debug, Clone, Copy, PartialEq, Eq, Structural)]
pub enum SurfaceCondition {
    /// Dry.
    Dry,
    /// Wet.
    Wet,
    /// Icy.
    Icy,
    /// Snow-covered.
    Snow,
}

/// Decision priority levels, from lowest to highest.
#[derive(Debug, Clone, Copy, PartialEq, Eq, PartialOrd, Ord, Hash, Structural)]
pub enum Priority {
    /// Low.
    Low,
    /// Medium.
    Medium,
    /// High.
    High,
    /// Critical.
    Critical,
}

/// The rank of a priority: 0 for low up to 3 for critical.
pub open spec fn priority_rank(p: Priority) -> int {
    match p {
        Priority::Low => 0,
        Priority::Medium => 1,
        Priority::High => 2,
        Priority::Critical => 3,
    }
}

/// The label a priority displays as.
pub open spec fn priority_label(p: Priority) -> Seq<char> {
    match p {
        Priority::Low => "LOW"@,
        Priority::Medium => "MEDIUM"@,
        Priority::High => "HIGH"@,
        Priority::Critical => "CRITICAL"@,
    }
}

impl Priority {
    /// The priority's rank: 0 for low up to 3 for critical.
    pub fn rank(&self) -> (r: u8)
        ensures
            r == priority_rank(*self),
    {
        match self {
            Priority::Low => 0,
            Priority::Medium => 1,
            Priority::High => 2,
            Priority::Critical => 3,
        }
    }

    /// Whether this priority is above `other`.
    pub fn is_above(&self, other: &Priority) -> (r: bool)
        ensures
            r == (priority_rank(*self) > priority_rank(*other)),
    {
        self.rank() > other.rank()
    }

    /// The label the priority displays as: `LOW`, `MEDIUM`, `HIGH` or `CRITICAL`.
    pub fn to_display_string(&self) -> (r: String)
        ensures
            r@ == priority_label(*self),
    {
        let mut out: Vec<char> = Vec::new();
        match self {
            Priority::Low => push_str(&mut out, "LOW"),
            Priority::Medium => push_str(&mut out, "MEDIUM"),
            Priority::High => push_str(&mut out, "HIGH"),
            Priority::Critical => push_str(&mut out, "CRITICAL"),
        }
        string_of(out.as_slice())
    }
}

/// The priority of a speed limit by zone: high in school zones, medium in
/// residential and urban zones, low on highways.
pub open spec fn zone_priority(z: ZoneType) -> Priority {
    match z {
        ZoneType::SchoolZone => Priority::High,
        ZoneType::Residential => Priority::Medium,
        ZoneType::Urban => Priority::Medium,
        ZoneType::Highway => Priority::Low,
    }
}

/// Traffic rules and safety constraints.
pub struct TrafficRules;

impl TrafficRules {
    /// A pedestrian crossing is always critical.
    pub fn pedestrian_priority() -> (r: Priority)
        ensures
            r == Priority::Critical,
    {
        Priority::Critical
    }

    /// The priority of keeping to the speed limit of a zone.
    pub fn speed_limit_priority(zone_type: ZoneType) -> (r: Priority)
        ensures
            r == zone_priority(zone_type),
    {
        match zone_type {
            ZoneType::SchoolZone => Priority::High,
            ZoneType::Residential => Priority::Medium,
            ZoneType::Urban => Priority::Medium,
            ZoneType::Highway => Priority::Low,
        }
    }
}

/// A pedestrian crossing ranks at least as high as any speed limit.
pub proof fn lemma_pedestrian_outranks_speed_limits(z: ZoneType)
    ensures
        priority_rank(Priority::Critical) > priority_rank(zone_priority(z)),
{
}

/// The executor that turns sensor data into decisions.
pub struct ReasoningExecutor;

pub const RED_TRAFFIC_LIGHT_QUERY: &'static str = r#"
PREFIX av: <http://zenya.com/ontology/av#>
PREFIX action: <http://zenya.com/ontology/action#>
PREFIX sensor: <http://zenya.com/ontology/sensor#>
PREFIX xsd: <http://www.w3.org/2001/XMLSchema#>
PREFIX prov: <http://www.w3.org/ns/prov#>

# Check if emergency braking is required for red light
ASK {
  # Get ego vehicle state
  <http://zenya.com/vehicle/ego> av:hasVelocity ?speedMps .

  # Traffic light detection
  ?tl a av:TrafficLight ;
      av:state "red"^^xsd:string ;
      av:distanceTo ?distance ;
      sensor:confidence ?conf .

  # Only trust high-confidence detections (>85%)
  FILTER(?conf > 0.85)

  # Calculate stopping distance: d = v^2 / (2 * a)
  # Assuming max deceleration a = 5 m/s^2
  # stoppingDist = v^2 / 10
  BIND((?speedMps * ?speedMps) / 10.0 AS ?minStoppingDist)

  # Add 10m safety margin
  BIND(?minStoppingDist + 10.0 AS ?safeStoppingDist)

  # Check if within stopping distance
  FILTER(?distance <= ?safeStoppingDist)
}
"#;

/// Query template: Calculate brake intensity for red light
pub const RED_LIGHT_BRAKE_INTENSITY_QUERY: &'static str = r#"
PREFIX av: <http://zenya.com/ontology/av#>
PREFIX sensor: <http://zenya.com/ontology/sensor#>
PREFIX xsd: <http://www.w3.org/2001/XMLSchema#>

SELECT ?intensity WHERE {
  <http://zenya.com/vehicle/ego> av:hasVelocity ?speedMps .

  ?tl a av:TrafficLight ;
      av:state "red"^^xsd:string ;
      av:distanceTo ?distance ;
      sensor:confidence ?conf .

  FILTER(?conf > 0.85)

  # Calculate minimum stopping distance
  BIND((?speedMps * ?speedMps) / 10.0 AS ?minStoppingDist)
  BIND(?minStoppingDist + 10.0 AS ?safeStoppingDist)

  # Only if we need to brake
  FILTER(?distance <= ?safeStoppingDist)

  # Calculate brake intensity (stronger if closer)
  # If distance < minStoppingDist: full brake (1.0)
  # Otherwise: gradual brake (0.6 - 1.0)
  BIND(
    IF(?distance < ?minStoppingDist,
       1.0,
       0.6 + (0.4 * (1.0 - ?distance / ?safeStoppingDist)))
    AS ?intensity
  )
}
ORDER BY DESC(?intensity)
LIMIT 1
"#;

/// Query template: Pedestrian crossing detection
pub const PEDESTRIAN_CROSSING_QUERY: &'static str = r#"
PREFIX av: <http://zenya.com/ontology/av#>
PREFIX sensor: <http://zenya.com/ontology/sensor#>

ASK {
  # Pedestrian detected
  ?ped a av:Pedestrian ;
       av:inCrosswalk "true"^^xsd:boolean ;
       sensor:confidence ?conf .

  # High confidence only
  FILTER(?conf > 0.9)
}
"#;

/// Query template: Lane change safety check
pub const LANE_CHANGE_SAFETY_QUERY: &'static str = r#"
PREFIX av: <http://zenya.com/ontology/av#>
PREFIX road: <http://zenya.com/ontology/road#>

ASK {
  # Get current and target lanes
  <http://zenya.com/vehicle/ego> av:inLane ?currentLane .
  ?currentLane road:adjacentLane ?targetLane .

  # Check for vehicles in target lane
  ?otherVehicle a av:Vehicle ;
                av:inLane ?targetLane ;
                av:relativePosition ?relPos .

  # Blind spot zone: 5m behind to 10m ahead
  FILTER(?relPos > -5.0 && ?relPos < 10.0)
}
# Returns TRUE if unsafe (vehicle detected), FALSE if safe
"#;

/// Query template: Speed limit compliance check
pub const SPEED_LIMIT_COMPLIANCE_QUERY: &'static str = r#"
PREFIX av: <http://zenya.com/ontology/av#>
PREFIX road: <http://zenya.com/ontology/road#>
PREFIX xsd: <http://www.w3.org/2001/XMLSchema#>

SELECT ?currentSpeed ?limitMps ?excessSpeed ?targetSpeed WHERE {
  # Get current speed (m/s) and road segment
  <http://zenya.com/vehicle/ego> av:hasVelocity ?currentSpeed ;
                                  av:inRoadSegment ?segment .

  # Get speed limit (stored in km/h, convert to m/s)
  ?segment road:speedLimit ?limitKmh .

  BIND(?limitKmh / 3.6 AS ?limitMps)

  # Check if speeding
  FILTER(?currentSpeed > ?limitMps)

  # Calculate excess speed
  BIND((?currentSpeed - ?limitMps) AS ?excessSpeed)

  # Target speed: 90% of limit (safety margin)
  BIND(?limitMps * 0.9 AS ?targetSpeed)
}
"#;

/// The query template with the given name.
pub open spec fn query_for(name: Seq<char>) -> Option<Seq<char>> {
    if name == "red-traffic-light"@ {
        Some(RED_TRAFFIC_LIGHT_QUERY@)
    } else if name == "red-light-intensity"@ {
        Some(RED_LIGHT_BRAKE_INTENSITY_QUERY@)
    } else if name == "pedestrian-crossing"@ {
        Some(PEDESTRIAN_CROSSING_QUERY@)
    } else if name == "lane-change-safety"@ {
        Some(LANE_CHANGE_SAFETY_QUERY@)
    } else if name == "speed-limit-compliance"@ {
        Some(SPEED_LIMIT_COMPLIANCE_QUERY@)
    } else {
        None
    }
}

fn same_text(a: &str, b: &str) -> (r: bool)
    ensures
        r == (a@ == b@),
{
    let x = a.to_owned();
    let y = b.to_owned();
    String::eq(&x, &y)
}

/// The SPARQL query template with the given name, if there is one.
pub fn get_query(name: &str) -> (r: Option<&'static str>)
    ensures
        match r {
            Some(q) => query_for(name@) == Some(q@),
            None => query_for(name@) is None,
        },
{
    if same_text(name, "red-traffic-light") {
        Some(RED_TRAFFIC_LIGHT_QUERY)
    } else if same_text(name, "red-light-intensity") {
        Some(RED_LIGHT_BRAKE_INTENSITY_QUERY)
    } else if same_text(name, "pedestrian-crossing") {
        Some(PEDESTRIAN_CROSSING_QUERY)
    } else if same_text(name, "lane-change-safety") {
        Some(LANE_CHANGE_SAFETY_QUERY)
    } else if same_text(name, "speed-limit-compliance") {
        Some(SPEED_LIMIT_COMPLIANCE_QUERY)
    } else {
        None
    }
}

} // verus!
