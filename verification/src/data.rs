//! Data model for the hydrometric API: stations, flow readings, and the two
//! response envelopes, together with their mathematical views.
//!
//! Every field is kept exactly as the API delivers it.  Coordinates and flow
//! values are kept as the raw numeric text, because the API does not
//! guarantee a numeric formatting that could be parsed without loss.

use vstd::prelude::*;

verus! {

/// One station record from the station-list endpoint.
pub struct Station {
    pub province: String,
    pub operations: String,
    pub name: String,
    /// The coordinate pair, kept verbatim as the numeric tokens of the
    /// response text.
    pub latlng: Vec<String>,
    pub six_hrs_data: String,
    pub id: String,
}

/// Mathematical view of a [`Station`]: every field as a character sequence.
pub ghost struct StationV {
    pub province: Seq<char>,
    pub operations: Seq<char>,
    pub name: Seq<char>,
    pub latlng: Seq<Seq<char>>,
    pub six_hrs_data: Seq<char>,
    pub id: Seq<char>,
}

impl View for Station {
    type V = StationV;

    open spec fn view(&self) -> StationV {
        StationV {
            province: self.province@,
            operations: self.operations@,
            name: self.name@,
            latlng: self.latlng@.map_values(|s: String| s@),
            six_hrs_data: self.six_hrs_data@,
            id: self.id@,
        }
    }
}

impl DeepView for Station {
    type V = StationV;

    open spec fn deep_view(&self) -> StationV {
        self.view()
    }
}

/// The envelope around the station list, as the station-list endpoint
/// returns it.
pub struct StationListEnvelope {
    pub code: i32,
    pub details: String,
    pub stations: Vec<Station>,
}

/// Mathematical view of a [`StationListEnvelope`].
pub ghost struct StationListEnvelopeV {
    pub code: int,
    pub details: Seq<char>,
    pub stations: Seq<StationV>,
}

impl View for StationListEnvelope {
    type V = StationListEnvelopeV;

    open spec fn view(&self) -> StationListEnvelopeV {
        StationListEnvelopeV {
            code: self.code as int,
            details: self.details@,
            stations: self.stations.deep_view(),
        }
    }
}

/// One flow reading: the day it was taken and the flow value, both kept as
/// the text the API sent.
pub struct FlowReading {
    pub date: String,
    pub value: String,
}

/// Mathematical view of a [`FlowReading`].
pub ghost struct FlowReadingV {
    pub date: Seq<char>,
    pub value: Seq<char>,
}

impl View for FlowReading {
    type V = FlowReadingV;

    open spec fn view(&self) -> FlowReadingV {
        FlowReadingV { date: self.date@, value: self.value@ }
    }
}

impl DeepView for FlowReading {
    type V = FlowReadingV;

    open spec fn deep_view(&self) -> FlowReadingV {
        self.view()
    }
}

impl Clone for FlowReading {
    fn clone(&self) -> (r: Self)
        ensures
            r == *self,
    {
        FlowReading { date: self.date.clone(), value: self.value.clone() }
    }
}

/// The payload of the flow-history endpoint: the queried date range, the
/// unit of measurement, and the chronologically ascending reading history.
pub struct FlowData {
    pub start_date: String,
    pub end_date: String,
    pub unit: String,
    pub history: Vec<FlowReading>,
}

/// Mathematical view of a [`FlowData`].
pub ghost struct FlowDataV {
    pub start_date: Seq<char>,
    pub end_date: Seq<char>,
    pub unit: Seq<char>,
    pub history: Seq<FlowReadingV>,
}

impl View for FlowData {
    type V = FlowDataV;

    open spec fn view(&self) -> FlowDataV {
        FlowDataV {
            start_date: self.start_date@,
            end_date: self.end_date@,
            unit: self.unit@,
            history: self.history.deep_view(),
        }
    }
}

/// The envelope around the flow history, as the flow endpoint returns it.
pub struct FlowHistoryEnvelope {
    pub code: i32,
    pub details: String,
    pub data: FlowData,
}

/// Mathematical view of a [`FlowHistoryEnvelope`].
pub ghost struct FlowHistoryEnvelopeV {
    pub code: int,
    pub details: Seq<char>,
    pub data: FlowDataV,
}

impl View for FlowHistoryEnvelope {
    type V = FlowHistoryEnvelopeV;

    open spec fn view(&self) -> FlowHistoryEnvelopeV {
        FlowHistoryEnvelopeV {
            code: self.code as int,
            details: self.details@,
            data: self.data@,
        }
    }
}

/// One search hit: the station's name and its identifier, in the order the
/// station list gave them.
pub struct Match {
    pub name: String,
    pub id: String,
}

/// Mathematical view of a [`Match`].
pub ghost struct MatchV {
    pub name: Seq<char>,
    pub id: Seq<char>,
}

impl View for Match {
    type V = MatchV;

    open spec fn view(&self) -> MatchV {
        MatchV { name: self.name@, id: self.id@ }
    }
}

impl DeepView for Match {
    type V = MatchV;

    open spec fn deep_view(&self) -> MatchV {
        self.view()
    }
}

} // verus!
