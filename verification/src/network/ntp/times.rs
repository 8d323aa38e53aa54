use vstd::prelude::*;

verus! {

/// Whether an integer fits in an `i128`.
pub open spec fn fits_i128(x: int) -> bool {
    i128::MIN <= x <= i128::MAX
}

/// Integer division by two that rounds toward zero, as Rust's `/` does.
pub open spec fn half_toward_zero(x: int) -> int {
    if x >= 0 {
        x / 2
    } else {
        -((-x) / 2)
    }
}

/// Used for client-sided time adjustments after syncing to the server's clock. All times are in microseconds. Based on
/// NTP (https://en.wikipedia.org/wiki/Network_Time_Protocol#Clock_synchronization_algorithm).
#[derive(Clone, Copy, Debug, PartialEq, Eq, Structural)]
pub struct Times {
    /// The time we received the server's answer.
    client_receive_time: i128,
    /// The time we sent our time request to the server.
    client_send_time: i128,
    /// The precision of the server.
    server_precision: u64,
    /// The time the server received our time request.
    server_receive_time: i128,
    /// The time the server sent its response to us.
    server_send_time: i128,
}

impl Times {
    pub closed spec fn client_receive(&self) -> i128 {
        self.client_receive_time
    }

    pub closed spec fn client_send(&self) -> i128 {
        self.client_send_time
    }

    pub closed spec fn precision(&self) -> u64 {
        self.server_precision
    }

    pub closed spec fn server_receive(&self) -> i128 {
        self.server_receive_time
    }

    pub closed spec fn server_send(&self) -> i128 {
        self.server_send_time
    }

    /// The round-trip delay, in unbounded arithmetic.
    pub open spec fn delay_spec(&self) -> int {
        (self.client_receive() - self.client_send()) - (self.server_send() - self.server_receive())
    }

    /// The time offset, in unbounded arithmetic with Rust's rounding.
    pub open spec fn time_offset_spec(&self) -> int {
        half_toward_zero((self.server_receive() - self.client_send()) + (self.server_send() - self.client_receive()))
    }

    /// Whether the delay can be computed without overflowing.
    pub open spec fn delay_fits(&self) -> bool {
        &&& fits_i128(self.client_receive() - self.client_send())
        &&& fits_i128(self.server_send() - self.server_receive())
        &&& fits_i128(self.delay_spec())
    }

    /// Whether the time offset can be computed without overflowing.
    pub open spec fn time_offset_fits(&self) -> bool {
        &&& fits_i128(self.server_receive() - self.client_send())
        &&& fits_i128(self.server_send() - self.client_receive())
        &&& fits_i128((self.server_receive() - self.client_send()) + (self.server_send() - self.client_receive()))
    }

    /// The `Times` made of these five values.
    pub closed spec fn spec_new(
        client_receive_time: i128,
        client_send_time: i128,
        server_precision: u64,
        server_receive_time: i128,
        server_send_time: i128,
    ) -> Times {
        Times { client_receive_time, client_send_time, server_precision, server_receive_time, server_send_time }
    }

    /// Whether the delay can be computed without overflowing.
    pub fn can_compute_delay(&self) -> (result: bool)
        ensures
            result == self.delay_fits(),
    {
        let first = match self.client_receive_time.checked_sub(self.client_send_time) {
            Some(value) => value,
            None => return false,
        };
        let second = match self.server_send_time.checked_sub(self.server_receive_time) {
            Some(value) => value,
            None => return false,
        };
        first.checked_sub(second).is_some()
    }

    /// Whether the time offset can be computed without overflowing.
    pub fn can_compute_time_offset(&self) -> (result: bool)
        ensures
            result == self.time_offset_fits(),
    {
        let first = match self.server_receive_time.checked_sub(self.client_send_time) {
            Some(value) => value,
            None => return false,
        };
        let second = match self.server_send_time.checked_sub(self.client_receive_time) {
            Some(value) => value,
            None => return false,
        };
        first.checked_add(second).is_some()
    }

    pub fn new(
        client_receive_time: i128,
        client_send_time: i128,
        server_precision: u64,
        server_receive_time: i128,
        server_send_time: i128,
    ) -> (times: Self)
        ensures
            times.client_receive() == client_receive_time,
            times.client_send() == client_send_time,
            times.precision() == server_precision,
            times.server_receive() == server_receive_time,
            times.server_send() == server_send_time,
            times == Times::spec_new(
                client_receive_time,
                client_send_time,
                server_precision,
                server_receive_time,
                server_send_time,
            ),
    {
        Times { client_receive_time, client_send_time, server_precision, server_receive_time, server_send_time }
    }

    /// The time between the client sending a time request and receiving the server's response. Based on NTP's
    /// round-trip delay calculation.
    pub fn delay(&self) -> (delay: i128)
        requires
            self.delay_fits(),
        ensures
            delay == self.delay_spec(),
    {
        (self.client_receive_time - self.client_send_time) - (self.server_send_time - self.server_receive_time)
    }

    /// Calculate the difference in absolute time between the client and server times. Based on NTP's time offset
    /// calculation.
    pub fn time_offset(&self) -> (offset: i128)
        requires
            self.time_offset_fits(),
        ensures
            offset == self.time_offset_spec(),
    {
        let sum = (self.server_receive_time - self.client_send_time) + (self.server_send_time
            - self.client_receive_time);
        sum / 2
    }

    /// The amount of time the server spent processing the client's packet.
    pub fn server_processing(&self) -> (processing: i128)
        requires
            fits_i128(self.server_send() - self.server_receive()),
        ensures
            processing == self.server_send() - self.server_receive(),
    {
        self.server_send_time - self.server_receive_time
    }

    /// Estimates the time it took for the client's packet to reach the server.
    pub fn estimate_first_leg(&self) -> (leg: i128)
        requires
            fits_i128(self.server_receive() - self.client_send()),
        ensures
            leg == self.server_receive() - self.client_send(),
    {
        self.server_receive_time - self.client_send_time
    }

    /// Estimates the time it took for the server's packet to reach the client.
    pub fn estimate_second_leg(&self) -> (leg: i128)
        requires
            fits_i128(self.client_receive() - self.server_send()),
        ensures
            leg == self.client_receive() - self.server_send(),
    {
        self.client_receive_time - self.server_send_time
    }

    pub fn server_precision(&self) -> (precision: u64)
        ensures
            precision == self.precision(),
    {
        self.server_precision
    }

    pub fn client_send_time(&self) -> (time: i128)
        ensures
            time == self.client_send(),
    {
        self.client_send_time
    }
}

/// The round-trip delay splits into the two one-way legs, less nothing else: delay == first leg + second leg.
pub proof fn delay_is_sum_of_legs(times: Times)
    ensures
        times.delay_spec() == (times.server_receive() - times.client_send()) + (times.client_receive()
            - times.server_send()),
{
}

} // verus!
