//! Where the gateway listens, and who may enter.

use vstd::prelude::*;

verus! {

/// An address of the Internet protocol, by its bytes.
#[derive(Debug, Clone, Copy, PartialEq, Eq)]
pub enum HostIp {
    V4([u8; 4]),
    V6([u8; 16]),
}

impl HostIp {
    /// `127.0.0.0/8`, or `::1`.
    pub open spec fn loops_back(&self) -> bool {
        match *self {
            HostIp::V4(b) => b@[0] == 127,
            HostIp::V6(b) => b@ == Seq::new(
                16,
                |i: int|
                    if i == 15 {
                        1u8
                    } else {
                        0u8
                    },
            ),
        }
    }

    pub fn is_loopback(&self) -> (r: bool)
        ensures
            r == self.loops_back(),
    {
        match self {
            HostIp::V4(b) => b[0] == 127,
            HostIp::V6(b) => {
                let one: [u8; 16] = [0, 0, 0, 0, 0, 0, 0, 0, 0, 0, 0, 0, 0, 0, 0, 1];
                assert(one@ =~= Seq::new(
                    16,
                    |i: int|
                        if i == 15 {
                            1u8
                        } else {
                            0u8
                        },
                ));
                crate::order::bytes_equal(b, &one)
            },
        }
    }
}

/// An address and a port.
#[derive(Debug, Clone, Copy, PartialEq, Eq)]
pub struct HostAddr {
    pub ip: HostIp,
    pub port: u16,
}

/// A bind address that is loopback by construction: the plaintext gateway
/// cannot listen on an external interface.
#[derive(Debug, Clone, Copy, PartialEq, Eq)]
pub struct IrcBindAddr(HostAddr);

#[derive(Debug, Clone, Copy, PartialEq, Eq, Structural)]
pub struct NotLoopback;

impl View for IrcBindAddr {
    type V = HostAddr;

    closed spec fn view(&self) -> HostAddr {
        self.0
    }
}

impl IrcBindAddr {
    pub open spec fn wf(&self) -> bool {
        self@.ip.loops_back()
    }

    pub fn new(addr: HostAddr) -> (r: Result<IrcBindAddr, NotLoopback>)
        ensures
            match r {
                Ok(b) => addr.ip.loops_back() && b@ == addr && b.wf(),
                Err(_) => !addr.ip.loops_back(),
            },
    {
        if addr.ip.is_loopback() {
            Ok(IrcBindAddr(addr))
        } else {
            Err(NotLoopback)
        }
    }

    /// `127.0.0.1:<port>`.
    pub fn localhost(port: u16) -> (r: IrcBindAddr)
        ensures
            r.wf(),
            r@.port == port,
            r@.ip matches HostIp::V4(b) && b@ == seq![127u8, 0, 0, 1],
    {
        let b: [u8; 4] = [127, 0, 0, 1];
        assert(b@ =~= seq![127u8, 0, 0, 1]);
        IrcBindAddr(HostAddr { ip: HostIp::V4(b), port })
    }

    pub fn socket_addr(&self) -> (r: HostAddr)
        ensures
            r == self@,
    {
        self.0
    }
}

#[derive(Debug, Clone)]
pub struct IrcConfig {
    pub bind: IrcBindAddr,
    /// Recommended on multi-user machines: other local users can reach
    /// loopback ports.
    pub password: Option<String>,
}

impl Default for IrcConfig {
    fn default() -> (r: Self)
        ensures
            r.bind.wf(),
            r.bind@.port == 6667,
            r.bind@.ip matches HostIp::V4(b) && b@ == seq![127u8, 0, 0, 1],
            r.password is None,
    {
        IrcConfig { bind: IrcBindAddr::localhost(6667), password: None }
    }
}

/// Whether the two are the same, in a time that depends on their lengths only.
pub fn constant_time_eq(a: &str, b: &str) -> (r: bool)
    ensures
        r == (a@ == b@),
{
    let x: &[u8] = a.as_bytes();
    let y: &[u8] = b.as_bytes();
    let xn: usize = x.len();
    let yn: usize = y.len();
    let mut diff: usize = xn ^ yn;
    assert(xn ^ yn == 0 <==> xn == yn) by (bit_vector);
    let n: usize = if xn < yn {
        yn
    } else {
        xn
    };
    let mut i: usize = 0;
    while i < n
        invariant
            xn == x@.len(),
            yn == y@.len(),
            n == if xn < yn {
                yn
            } else {
                xn
            },
            i <= n,
            diff == 0 <==> xn == yn && forall|j: int| 0 <= j < i ==> x@[j] == y@[j],
        decreases n - i,
    {
        let p: u8 = if i < xn {
            x[i]
        } else {
            0
        };
        let q: u8 = if i < yn {
            y[i]
        } else {
            0
        };
        let d: usize = (p ^ q) as usize;
        assert((p ^ q) == 0 <==> p == q) by (bit_vector);
        assert(diff | d == 0 <==> diff == 0 && d == 0) by (bit_vector);
        diff = diff | d;
        i = i + 1;
    }
    proof {
        if diff == 0 {
            assert(x@ =~= y@);
        }
        vstd::utf8::encode_utf8_decode_utf8(a@);
        vstd::utf8::encode_utf8_decode_utf8(b@);
    }
    diff == 0
}

/// The gateway listens to this machine alone: on the addresses that begin with 127, and on
/// the one of the other protocol that stands for it, and on no others.
pub proof fn law_only_loopback_is_bound(v4: [u8; 4], v6: [u8; 16])
    ensures
        HostIp::V4(v4).loops_back() <==> v4@[0] == 127,
        HostIp::V6(v6).loops_back() <==> v6@[15] == 1 && forall|i: int|
            0 <= i < 15 ==> #[trigger] v6@[i] == 0,
{
    let one = Seq::new(
        16,
        |i: int|
            if i == 15 {
                1u8
            } else {
                0u8
            },
    );
    if v6@[15] == 1 && forall|i: int| 0 <= i < 15 ==> #[trigger] v6@[i] == 0 {
        assert(v6@ =~= one);
    }
    if v6@ == one {
        assert forall|i: int| 0 <= i < 15 implies #[trigger] v6@[i] == 0 by {
            assert(one[i] == 0);
        }
    }
}

} // verus!
